//! The closure engine and the factory-subset search.
//!
//! The engine computes, from an initial set of available item ids, the least
//! set of items producible by repeatedly applying recipes whose inputs are all
//! available, restricted to tiers strictly above `R0` and at most a ceiling.
//! The result is pinned down by two clauses: it is closed under production
//! (`closure_closed`), and it is a subset of every closed set.

use itertools::Itertools;
use vstd::prelude::*;
use vstd::set_lib::lemma_len_subset;

use crate::item::{
    contains_id, id_set_items, input_id, num_inputs, production_satisfied, Item, ItemManager,
    ItemV,
};
use crate::system::{planet_resource_ids, Planet, PlanetV};
use crate::Tier;

verus! {

/// The ids of a sequence of item views.
pub open spec fn id_set_views(s: Seq<ItemV>) -> Set<Seq<char>> {
    Set::new(|id: Seq<char>| exists|k: int| 0 <= k < s.len() && (#[trigger] s[k]).id == id)
}

/// The item is a valid output of one production cycle over `avail`: a catalog
/// item at or below the tier ceiling whose recipe has at least one input and
/// all of its inputs available.
pub open spec fn cycle_output(
    m: ItemManager,
    max_tier: Tier,
    avail: Set<Seq<char>>,
    id: Seq<char>,
) -> bool {
    &&& m.has_id(id)
    &&& m.item_of(id).tier.rank() <= max_tier.rank()
    &&& m.item_of(id).production is Some
    &&& num_inputs(m.item_of(id)) > 0
    &&& production_satisfied(m.item_of(id).production->0, avail)
}

/// The item may appear in a closure result: a cycle output whose tier is
/// strictly above `R0` (raw materials are never manufacturing results).
pub open spec fn producible(
    m: ItemManager,
    max_tier: Tier,
    avail: Set<Seq<char>>,
    id: Seq<char>,
) -> bool {
    &&& cycle_output(m, max_tier, avail, id)
    &&& m.item_of(id).tier.rank() > 0
}

/// `q` is closed under production from `initial`: every item producible from
/// `initial ∪ q` is already a member of `q`.
pub open spec fn closure_closed(
    m: ItemManager,
    max_tier: Tier,
    initial: Set<Seq<char>>,
    q: Set<Seq<char>>,
) -> bool {
    forall|id: Seq<char>|
        #[trigger] producible(m, max_tier, initial.union(q), id) ==> q.contains(id)
}

/// `result` is the closure of `initial`: the least set closed under
/// production from `initial`. The two clauses determine it uniquely.
pub open spec fn is_closure(
    m: ItemManager,
    max_tier: Tier,
    initial: Set<Seq<char>>,
    result: Set<Seq<char>>,
) -> bool {
    &&& closure_closed(m, max_tier, initial, result)
    &&& forall|q: Set<Seq<char>>|
        #[trigger] closure_closed(m, max_tier, initial, q) ==> result.subset_of(q)
}

/// A well-formed product list: copies of catalog items, no id twice.
pub open spec fn products_wf(s: Seq<Item>, m: ItemManager) -> bool {
    &&& forall|k: int|
        0 <= k < s.len() ==> m.has_id((#[trigger] s[k]).id@) && s[k]@ == m.item_of(s[k].id@)
    &&& forall|k: int, l: int| 0 <= k < l < s.len() ==> (#[trigger] s[k]).id@ != (#[trigger] s[l]).id@
}

/// A cycle output over a smaller availability set is one over a larger set.
pub proof fn lemma_cycle_output_monotone(
    m: ItemManager,
    max_tier: Tier,
    a1: Set<Seq<char>>,
    a2: Set<Seq<char>>,
    id: Seq<char>,
)
    requires
        a1.subset_of(a2),
        cycle_output(m, max_tier, a1, id),
    ensures
        cycle_output(m, max_tier, a2, id),
{
    let p = m.item_of(id).production->0;
    assert forall|k: int| 0 <= k < p.inputs.len() implies a2.contains(
        (#[trigger] p.inputs[k]).item_id,
    ) by {
        assert(a1.contains(p.inputs[k].item_id));
    }
}

/// Producibility is monotone in the availability set.
pub proof fn lemma_producible_monotone(
    m: ItemManager,
    max_tier: Tier,
    a1: Set<Seq<char>>,
    a2: Set<Seq<char>>,
    id: Seq<char>,
)
    requires
        a1.subset_of(a2),
        producible(m, max_tier, a1, id),
    ensures
        producible(m, max_tier, a2, id),
{
    lemma_cycle_output_monotone(m, max_tier, a1, a2, id);
}

/// Appending an item adds exactly its id to the id set.
pub proof fn lemma_id_set_push(s: Seq<Item>, it: Item)
    ensures
        id_set_items(s.push(it)) == id_set_items(s).insert(it.id@),
{
    assert forall|id: Seq<char>|
        id_set_items(s.push(it)).contains(id) <==> id_set_items(s).insert(it.id@).contains(
            id,
        ) by {
        if id_set_items(s.push(it)).contains(id) {
            let k = choose|k: int| 0 <= k < s.push(it).len() && (#[trigger] s.push(it)[k]).id@ == id;
            if k < s.len() {
                assert(s[k].id@ == id);
            }
        }
        if id_set_items(s).contains(id) {
            let k = choose|k: int| 0 <= k < s.len() && (#[trigger] s[k]).id@ == id;
            assert(s.push(it)[k].id@ == id);
        }
        if id == it.id@ {
            assert(s.push(it)[s.len() as int].id@ == id);
        }
    }
    assert(id_set_items(s.push(it)) =~= id_set_items(s).insert(it.id@));
}

/// A sequence of items with pairwise distinct ids has exactly as many ids as
/// elements.
pub proof fn lemma_id_set_len(s: Seq<Item>)
    requires
        forall|k: int, l: int| 0 <= k < l < s.len() ==> (#[trigger] s[k]).id@ != (#[trigger] s[l]).id@,
    ensures
        id_set_items(s).finite(),
        id_set_items(s).len() == s.len(),
    decreases s.len(),
{
    if s.len() == 0 {
        assert(id_set_items(s) =~= Set::<Seq<char>>::empty());
    } else {
        let pre = s.drop_last();
        lemma_id_set_len(pre);
        assert forall|id: Seq<char>|
            id_set_items(s).contains(id) <==> id_set_items(pre).insert(s.last().id@).contains(
                id,
            ) by {
            if id_set_items(s).contains(id) {
                let k = choose|k: int| 0 <= k < s.len() && (#[trigger] s[k]).id@ == id;
                if k < s.len() - 1 {
                    assert(pre[k].id@ == id);
                }
            }
            if id_set_items(pre).contains(id) {
                let k = choose|k: int| 0 <= k < pre.len() && (#[trigger] pre[k]).id@ == id;
                assert(s[k].id@ == id);
            }
            if id == s.last().id@ {
                assert(s[s.len() - 1].id@ == id);
            }
        }
        assert(id_set_items(s) =~= id_set_items(pre).insert(s.last().id@));
        assert(!id_set_items(pre).contains(s.last().id@)) by {
            if id_set_items(pre).contains(s.last().id@) {
                let k = choose|k: int|
                    0 <= k < pre.len() && (#[trigger] pre[k]).id@ == s.last().id@;
                assert(s[k].id@ != s[s.len() - 1].id@);
            }
        }
    }
}

/// A sequence of item views has at most as many ids as elements.
pub proof fn lemma_id_set_views_len(s: Seq<ItemV>)
    ensures
        id_set_views(s).finite(),
        id_set_views(s).len() <= s.len(),
    decreases s.len(),
{
    if s.len() == 0 {
        assert(id_set_views(s) =~= Set::<Seq<char>>::empty());
    } else {
        let pre = s.drop_last();
        lemma_id_set_views_len(pre);
        assert forall|id: Seq<char>|
            id_set_views(s).contains(id) <==> id_set_views(pre).insert(s.last().id).contains(
                id,
            ) by {
            if id_set_views(s).contains(id) {
                let k = choose|k: int| 0 <= k < s.len() && (#[trigger] s[k]).id == id;
                if k < s.len() - 1 {
                    assert(pre[k].id == id);
                }
            }
            if id_set_views(pre).contains(id) {
                let k = choose|k: int| 0 <= k < pre.len() && (#[trigger] pre[k]).id == id;
                assert(s[k].id == id);
            }
            if id == s.last().id {
                assert(s[s.len() - 1].id == id);
            }
        }
        assert(id_set_views(s) =~= id_set_views(pre).insert(s.last().id));
    }
}

/// A well-formed product list is no longer than the catalog.
pub proof fn lemma_products_len(s: Seq<Item>, m: ItemManager)
    requires
        products_wf(s, m),
    ensures
        s.len() <= m.catalog().len(),
{
    lemma_id_set_len(s);
    lemma_id_set_views_len(m.catalog());
    assert forall|id: Seq<char>| id_set_items(s).contains(id) implies id_set_views(
        m.catalog(),
    ).contains(id) by {
        let k = choose|k: int| 0 <= k < s.len() && (#[trigger] s[k]).id@ == id;
        assert(m.has_id(id));
        let j = choose|j: int| 0 <= j < m.catalog().len() && (#[trigger] m.catalog()[j]).id == id;
    }
    lemma_len_subset(id_set_items(s), id_set_views(m.catalog()));
}

/// Law: a closure is determined by the initial id set alone. Two sets that
/// both satisfy the closure characterization over the same inputs are equal;
/// in particular the enumeration order of the initial items cannot matter.
pub proof fn lemma_closure_unique(
    m: ItemManager,
    max_tier: Tier,
    initial: Set<Seq<char>>,
    q1: Set<Seq<char>>,
    q2: Set<Seq<char>>,
)
    requires
        is_closure(m, max_tier, initial, q1),
        is_closure(m, max_tier, initial, q2),
    ensures
        q1 == q2,
{
    assert(closure_closed(m, max_tier, initial, q2));
    assert(closure_closed(m, max_tier, initial, q1));
    assert(q1 =~= q2);
}

/// Law: permuting the initial items never changes the closure: two closure
/// results over input sequences carrying the same ids are equal.
pub proof fn lemma_closure_order_independent(
    m: ItemManager,
    max_tier: Tier,
    init1: Seq<Item>,
    init2: Seq<Item>,
    c1: Set<Seq<char>>,
    c2: Set<Seq<char>>,
)
    requires
        id_set_items(init1) == id_set_items(init2),
        is_closure(m, max_tier, id_set_items(init1), c1),
        is_closure(m, max_tier, id_set_items(init2), c2),
    ensures
        c1 == c2,
{
    lemma_closure_unique(m, max_tier, id_set_items(init1), c1, c2);
}

/// Every member of a closure is producible from the initial set united with
/// the closure itself.
pub proof fn lemma_closure_sound(
    m: ItemManager,
    max_tier: Tier,
    initial: Set<Seq<char>>,
    c: Set<Seq<char>>,
)
    requires
        is_closure(m, max_tier, initial, c),
    ensures
        forall|id: Seq<char>| c.contains(id) ==> producible(m, max_tier, initial.union(c), id),
{
    let c2 = Set::new(
        |id: Seq<char>| c.contains(id) && producible(m, max_tier, initial.union(c), id),
    );
    assert(closure_closed(m, max_tier, initial, c2)) by {
        assert forall|id: Seq<char>|
            #[trigger] producible(m, max_tier, initial.union(c2), id) implies c2.contains(id) by {
            assert(initial.union(c2).subset_of(initial.union(c)));
            lemma_producible_monotone(m, max_tier, initial.union(c2), initial.union(c), id);
            assert(c.contains(id));
        }
    }
    assert(c.subset_of(c2));
}

/// Law (R0 exclusion): no item of tier `R0` ever appears in a closure,
/// whatever its recipe; every member is a catalog item of tier above `R0`.
pub proof fn lemma_closure_r0_excluded(
    m: ItemManager,
    max_tier: Tier,
    initial: Set<Seq<char>>,
    c: Set<Seq<char>>,
)
    requires
        is_closure(m, max_tier, initial, c),
    ensures
        forall|id: Seq<char>|
            c.contains(id) ==> m.has_id(id) && m.item_of(id).tier.rank() > Tier::R0.rank()
                && m.item_of(id).tier.rank() <= max_tier.rank(),
{
    lemma_closure_sound(m, max_tier, initial, c);
}

/// Law (tier monotonicity): raising the tier ceiling can only grow the
/// closure.
pub proof fn lemma_closure_tier_monotone(
    m: ItemManager,
    tier_a: Tier,
    tier_b: Tier,
    initial: Set<Seq<char>>,
    ca: Set<Seq<char>>,
    cb: Set<Seq<char>>,
)
    requires
        tier_a.rank() <= tier_b.rank(),
        is_closure(m, tier_a, initial, ca),
        is_closure(m, tier_b, initial, cb),
    ensures
        ca.subset_of(cb),
{
    assert(closure_closed(m, tier_a, initial, cb)) by {
        assert forall|id: Seq<char>|
            #[trigger] producible(m, tier_a, initial.union(cb), id) implies cb.contains(id) by {
            assert(producible(m, tier_b, initial.union(cb), id));
        }
    }
}

/// Law (closure idempotence): the closure is a fixed point. Adding a closure
/// to its own initial set and closing again yields the same set.
pub proof fn lemma_closure_idempotent(
    m: ItemManager,
    max_tier: Tier,
    initial: Set<Seq<char>>,
    c: Set<Seq<char>>,
    c2: Set<Seq<char>>,
)
    requires
        is_closure(m, max_tier, initial, c),
        is_closure(m, max_tier, initial.union(c), c2),
    ensures
        c2 == c,
{
    assert(closure_closed(m, max_tier, initial.union(c), c)) by {
        assert forall|id: Seq<char>|
            #[trigger] producible(m, max_tier, initial.union(c).union(c), id) implies c.contains(
            id,
        ) by {
            assert(initial.union(c).union(c) =~= initial.union(c));
            assert(producible(m, max_tier, initial.union(c), id));
        }
    }
    assert(c2.subset_of(c));
    assert(closure_closed(m, max_tier, initial, c2)) by {
        assert forall|id: Seq<char>|
            #[trigger] producible(m, max_tier, initial.union(c2), id) implies c2.contains(id) by {
            assert(initial.union(c2).subset_of(initial.union(c).union(c2)));
            lemma_producible_monotone(
                m,
                max_tier,
                initial.union(c2),
                initial.union(c).union(c2),
                id,
            );
        }
    }
    assert(c.subset_of(c2));
    assert(c =~= c2);
}

/// Law: with no initial items nothing is producible — the closure of the
/// empty set is empty, since every recipe needs at least one available input.
pub proof fn lemma_closure_empty(m: ItemManager, max_tier: Tier, c: Set<Seq<char>>)
    requires
        is_closure(m, max_tier, Set::empty(), c),
    ensures
        c == Set::<Seq<char>>::empty(),
{
    let e = Set::<Seq<char>>::empty();
    assert(closure_closed(m, max_tier, e, e)) by {
        assert forall|id: Seq<char>|
            #[trigger] producible(m, max_tier, e.union(e), id) implies e.contains(id) by {
            let p = m.item_of(id).production->0;
            assert(e.union(e).contains(p.inputs[0].item_id));
        }
    }
    assert(c.subset_of(e));
    assert(c =~= e);
}

/// All k-element combinations of the elements of `s`: each keeps the relative
/// order of `s`, and the combinations appear in lexicographic order of
/// positions.
pub open spec fn combos<A>(s: Seq<A>, k: nat) -> Seq<Seq<A>>
    decreases s.len(),
{
    if k == 0 {
        seq![Seq::<A>::empty()]
    } else if s.len() < k {
        Seq::<Seq<A>>::empty()
    } else {
        combos(s.drop_first(), (k - 1) as nat).map_values(|c: Seq<A>| seq![s.first()] + c)
            + combos(s.drop_first(), k)
    }
}

/// The binomial coefficient: the number of k-element subsets of an n-element
/// set.
pub open spec fn binomial(n: nat, k: nat) -> nat
    decreases n,
{
    if k == 0 {
        1
    } else if n == 0 {
        0
    } else {
        binomial((n - 1) as nat, (k - 1) as nat) + binomial((n - 1) as nat, k)
    }
}

/// Choosing more elements than there are yields nothing.
pub proof fn lemma_binomial_zero(n: nat, k: nat)
    requires
        n < k,
    ensures
        binomial(n, k) == 0,
    decreases n,
{
    if n > 0 {
        lemma_binomial_zero((n - 1) as nat, (k - 1) as nat);
        lemma_binomial_zero((n - 1) as nat, k);
    }
}

/// Law (subset completeness): enumerating the k-element combinations of an
/// n-element sequence yields exactly C(n, k) of them — zero when k exceeds n.
pub proof fn lemma_combos_len<A>(s: Seq<A>, k: nat)
    ensures
        combos(s, k).len() == binomial(s.len(), k),
    decreases s.len(),
{
    if k == 0 {
    } else if s.len() < k {
        lemma_binomial_zero(s.len(), k);
    } else {
        lemma_combos_len(s.drop_first(), (k - 1) as nat);
        lemma_combos_len(s.drop_first(), k);
    }
}

/// Every combination has exactly k elements, all drawn from `s`.
pub proof fn lemma_combos_elems<A>(s: Seq<A>, k: nat)
    ensures
        forall|x: int|
            0 <= x < combos(s, k).len() ==> (#[trigger] combos(s, k)[x]).len() == k as int,
        forall|x: int, j: int|
            0 <= x < combos(s, k).len() && 0 <= j < combos(s, k)[x].len() ==> s.contains(
                #[trigger] combos(s, k)[x][j],
            ),
    decreases s.len(),
{
    if k == 0 {
    } else if s.len() < k {
    } else {
        let rest = s.drop_first();
        let c1 = combos(rest, (k - 1) as nat);
        let c2 = combos(rest, k);
        let f = |c: Seq<A>| seq![s.first()] + c;
        lemma_combos_elems(rest, (k - 1) as nat);
        lemma_combos_elems(rest, k);
        assert(combos(s, k) == c1.map_values(f) + c2);
        assert forall|e: A| rest.contains(e) implies s.contains(e) by {
            let i = choose|i: int| 0 <= i < rest.len() && rest[i] == e;
            assert(s[i + 1] == e);
        }
        assert forall|x: int| 0 <= x < combos(s, k).len() implies (#[trigger] combos(s, k)[x]).len()
            == k as int by {
            if x < c1.len() {
                assert(combos(s, k)[x] == f(c1[x]));
            } else {
                assert(combos(s, k)[x] == c2[x - c1.len()]);
            }
        }
        assert forall|x: int, j: int|
            0 <= x < combos(s, k).len() && 0 <= j < combos(s, k)[x].len() implies s.contains(
            #[trigger] combos(s, k)[x][j],
        ) by {
            if x < c1.len() {
                assert(combos(s, k)[x] == f(c1[x]));
                if j == 0 {
                    assert(combos(s, k)[x][0] == s.first());
                    assert(s[0] == s.first());
                } else {
                    assert(combos(s, k)[x][j] == c1[x][j - 1]);
                    assert(rest.contains(c1[x][j - 1]));
                }
            } else {
                assert(combos(s, k)[x] == c2[x - c1.len()]);
                assert(rest.contains(c2[x - c1.len()][j]));
            }
        }
    }
}

/// The set of values occurring in a sequence of indices.
pub open spec fn val_set(s: Seq<usize>) -> Set<usize> {
    Set::new(|v: usize| exists|i: int| 0 <= i < s.len() && s[i] == v)
}

/// A sequence of pairwise distinct indices has exactly as many values as
/// elements.
pub proof fn lemma_val_set_len_distinct(s: Seq<usize>)
    requires
        forall|a: int, b: int| 0 <= a < b < s.len() ==> s[a] != s[b],
    ensures
        val_set(s).finite(),
        val_set(s).len() == s.len(),
    decreases s.len(),
{
    if s.len() == 0 {
        assert(val_set(s) =~= Set::<usize>::empty());
    } else {
        let pre = s.drop_last();
        lemma_val_set_len_distinct(pre);
        assert forall|v: usize|
            val_set(s).contains(v) <==> val_set(pre).insert(s.last()).contains(v) by {
            if val_set(s).contains(v) {
                let i = choose|i: int| 0 <= i < s.len() && s[i] == v;
                if i < s.len() - 1 {
                    assert(pre[i] == v);
                }
            }
            if val_set(pre).contains(v) {
                let i = choose|i: int| 0 <= i < pre.len() && pre[i] == v;
                assert(s[i] == v);
            }
            if v == s.last() {
                assert(s[s.len() - 1] == v);
            }
        }
        assert(val_set(s) =~= val_set(pre).insert(s.last()));
        assert(!val_set(pre).contains(s.last())) by {
            if val_set(pre).contains(s.last()) {
                let i = choose|i: int| 0 <= i < pre.len() && pre[i] == s.last();
                assert(s[i] != s[s.len() - 1]);
            }
        }
    }
}

/// A sequence of indices has at most as many values as elements.
pub proof fn lemma_val_set_len(s: Seq<usize>)
    ensures
        val_set(s).finite(),
        val_set(s).len() <= s.len(),
    decreases s.len(),
{
    if s.len() == 0 {
        assert(val_set(s) =~= Set::<usize>::empty());
    } else {
        let pre = s.drop_last();
        lemma_val_set_len(pre);
        assert forall|v: usize|
            val_set(s).contains(v) <==> val_set(pre).insert(s.last()).contains(v) by {
            if val_set(s).contains(v) {
                let i = choose|i: int| 0 <= i < s.len() && s[i] == v;
                if i < s.len() - 1 {
                    assert(pre[i] == v);
                }
            }
            if val_set(pre).contains(v) {
                let i = choose|i: int| 0 <= i < pre.len() && pre[i] == v;
                assert(s[i] == v);
            }
            if v == s.last() {
                assert(s[s.len() - 1] == v);
            }
        }
        assert(val_set(s) =~= val_set(pre).insert(s.last()));
    }
}

/// Over a strictly increasing index sequence, every combination is itself
/// strictly increasing: a subset never repeats an element, whatever order the
/// underlying locations were given in.
pub proof fn lemma_combos_increasing(s: Seq<usize>, k: nat)
    requires
        forall|a: int, b: int| 0 <= a < b < s.len() ==> s[a] < s[b],
    ensures
        forall|x: int, a: int, b: int|
            0 <= x < combos(s, k).len() && 0 <= a < b < combos(s, k)[x].len() ==> (
            #[trigger] combos(s, k)[x][a]) < (#[trigger] combos(s, k)[x][b]),
    decreases s.len(),
{
    if k == 0 {
    } else if s.len() < k {
    } else {
        let rest = s.drop_first();
        let c1 = combos(rest, (k - 1) as nat);
        let c2 = combos(rest, k);
        let f = |c: Seq<usize>| seq![s.first()] + c;
        assert forall|a: int, b: int| 0 <= a < b < rest.len() implies rest[a] < rest[b] by {
            assert(s[a + 1] < s[b + 1]);
        }
        lemma_combos_increasing(rest, (k - 1) as nat);
        lemma_combos_increasing(rest, k);
        lemma_combos_elems(rest, (k - 1) as nat);
        assert(combos(s, k) == c1.map_values(f) + c2);
        assert forall|e: usize| rest.contains(e) implies s.first() < e by {
            let i = choose|i: int| 0 <= i < rest.len() && rest[i] == e;
            assert(s[0] < s[i + 1]);
        }
        assert forall|x: int, a: int, b: int|
            0 <= x < combos(s, k).len() && 0 <= a < b < combos(s, k)[x].len() implies (
            #[trigger] combos(s, k)[x][a]) < (#[trigger] combos(s, k)[x][b]) by {
            if x < c1.len() {
                assert(combos(s, k)[x] == f(c1[x]));
                if a == 0 {
                    assert(combos(s, k)[x][b] == c1[x][b - 1]);
                    assert(rest.contains(c1[x][b - 1]));
                } else {
                    assert(combos(s, k)[x][a] == c1[x][a - 1]);
                    assert(combos(s, k)[x][b] == c1[x][b - 1]);
                }
            } else {
                assert(combos(s, k)[x] == c2[x - c1.len()]);
            }
        }
    }
}

/// Law (subset completeness, the other direction): every strictly increasing
/// selection of k indices out of a strictly increasing sequence appears among
/// its combinations — together with the count, the enumeration covers each
/// k-subset exactly once, so the set of evaluated subsets does not depend on
/// any ordering choice.
pub proof fn lemma_combos_complete(s: Seq<usize>, k: nat, c: Seq<usize>)
    requires
        forall|a: int, b: int| 0 <= a < b < s.len() ==> s[a] < s[b],
        c.len() == k,
        forall|a: int, b: int| 0 <= a < b < c.len() ==> c[a] < c[b],
        forall|j: int| 0 <= j < c.len() ==> s.contains(#[trigger] c[j]),
    ensures
        combos(s, k).contains(c),
    decreases s.len(),
{
    if k == 0 {
        assert(c =~= Seq::<usize>::empty());
        assert(combos(s, 0) == seq![Seq::<usize>::empty()]);
        assert(combos(s, k)[0] == c);
    } else {
        // the k distinct values of c all occur in s, so k <= s.len()
        lemma_val_set_len_distinct(c);
        lemma_val_set_len(s);
        assert(val_set(c).subset_of(val_set(s))) by {
            assert forall|v: usize| val_set(c).contains(v) implies val_set(s).contains(v) by {
                let j = choose|j: int| 0 <= j < c.len() && c[j] == v;
                assert(s.contains(c[j]));
                let i = choose|i: int| 0 <= i < s.len() && s[i] == c[j];
            }
        }
        lemma_len_subset(val_set(c), val_set(s));
        assert(s.len() >= k);
        let rest = s.drop_first();
        let c1 = combos(rest, (k - 1) as nat);
        let c2 = combos(rest, k);
        let f = |cc: Seq<usize>| seq![s.first()] + cc;
        assert(combos(s, k) == c1.map_values(f) + c2);
        assert forall|a: int, b: int| 0 <= a < b < rest.len() implies rest[a] < rest[b] by {
            assert(s[a + 1] < s[b + 1]);
        }
        assert forall|e: usize| s.contains(e) && e != s.first() implies rest.contains(e) by {
            let i = choose|i: int| 0 <= i < s.len() && s[i] == e;
            if i == 0 {
            } else {
                assert(rest[i - 1] == e);
            }
        }
        assert forall|e: usize| s.contains(e) implies s.first() <= e by {
            let i = choose|i: int| 0 <= i < s.len() && s[i] == e;
            if i > 0 {
                assert(s[0] < s[i]);
            }
        }
        if c[0] == s.first() {
            let tail = c.drop_first();
            assert forall|j: int| 0 <= j < tail.len() implies rest.contains(#[trigger] tail[j]) by {
                assert(tail[j] == c[j + 1]);
                assert(c[0] < c[j + 1]);
                assert(s.contains(c[j + 1]));
            }
            assert forall|a: int, b: int| 0 <= a < b < tail.len() implies tail[a] < tail[b] by {
                assert(c[a + 1] < c[b + 1]);
            }
            lemma_combos_complete(rest, (k - 1) as nat, tail);
            let x = choose|x: int| 0 <= x < c1.len() && c1[x] == tail;
            assert(combos(s, k)[x] == f(tail));
            assert(f(tail) =~= c);
            assert(combos(s, k)[x] == c);
        } else {
            assert forall|j: int| 0 <= j < c.len() implies rest.contains(#[trigger] c[j]) by {
                assert(s.contains(c[0]));
                assert(s.first() <= c[0]);
                if j > 0 {
                    assert(c[0] < c[j]);
                }
                assert(c[j] != s.first());
            }
            lemma_combos_complete(rest, k, c);
            let x = choose|x: int| 0 <= x < c2.len() && c2[x] == c;
            assert(combos(s, k)[c1.len() + x] == c);
        }
    }
}

/// Relies on itertools::Itertools::combinations: over the iterator `0..n` it
/// emits every k-element combination of indices exactly once, each ascending,
/// in lexicographic order of positions, and none when `k > n`.
#[verifier::external_body]
fn index_combinations(n: usize, k: usize) -> (r: Vec<Vec<usize>>)
    ensures
        r@.map_values(|c: Vec<usize>| c@) == combos(
            Seq::new(n as nat, |i: int| i as usize),
            k as nat,
        ),
{
    (0..n).combinations(k).collect()
}

/// Resolves the four optional solver knobs into a concrete parameter set:
/// whether the factory stage runs (default yes), how many planets are
/// considered (default 6, one of which the factory stage reserves for
/// aggregation), and the tier ceilings of the two closure stages.
#[derive(Debug)]
pub struct Builder {
    use_factory_planet: Option<bool>,
    max_planets: Option<usize>,
    production_max_tier: Option<Tier>,
    factory_max_tier: Option<Tier>,
}

impl Default for Builder {
    fn default() -> (r: Self)
        ensures
            r.spec_use_factory_planet() is None,
            r.spec_max_planets() is None,
            r.spec_production_max_tier() is None,
            r.spec_factory_max_tier() is None,
    {
        Builder {
            use_factory_planet: None,
            max_planets: None,
            production_max_tier: None,
            factory_max_tier: None,
        }
    }
}

impl Builder {
    /// The stored factory-stage switch, if one was set.
    pub closed spec fn spec_use_factory_planet(self) -> Option<bool> {
        self.use_factory_planet
    }

    /// The stored planet budget, if one was set.
    pub closed spec fn spec_max_planets(self) -> Option<usize> {
        self.max_planets
    }

    /// The stored production-stage ceiling, if one was set.
    pub closed spec fn spec_production_max_tier(self) -> Option<Tier> {
        self.production_max_tier
    }

    /// The stored factory-stage ceiling, if one was set.
    pub closed spec fn spec_factory_max_tier(self) -> Option<Tier> {
        self.factory_max_tier
    }

    /// Whether the factory stage will run: set value, or true by default.
    pub open spec fn resolved_use_factory(self) -> bool {
        if self.spec_use_factory_planet() is Some {
            self.spec_use_factory_planet()->0
        } else {
            true
        }
    }

    /// The planet budget: set value, or 6 by default.
    pub open spec fn resolved_max_planets(self) -> usize {
        if self.spec_max_planets() is Some {
            self.spec_max_planets()->0
        } else {
            6
        }
    }

    /// The production-stage ceiling: set value, or `P1` when the factory
    /// stage runs (it finishes the higher tiers), else `P4`.
    pub open spec fn resolved_production_max_tier(self) -> Tier {
        if self.spec_production_max_tier() is Some {
            self.spec_production_max_tier()->0
        } else if self.resolved_use_factory() {
            Tier::P1
        } else {
            Tier::P4
        }
    }

    /// The factory-stage ceiling: set value, or `P4` by default.
    pub open spec fn resolved_factory_max_tier(self) -> Tier {
        if self.spec_factory_max_tier() is Some {
            self.spec_factory_max_tier()->0
        } else {
            Tier::P4
        }
    }

    /// Sets whether the factory stage runs; `None` keeps the default.
    pub fn use_factory_planet(self, value: Option<bool>) -> (r: Self)
        ensures
            r.spec_use_factory_planet() == value,
            r.spec_max_planets() == self.spec_max_planets(),
            r.spec_production_max_tier() == self.spec_production_max_tier(),
            r.spec_factory_max_tier() == self.spec_factory_max_tier(),
    {
        Builder { use_factory_planet: value, ..self }
    }

    /// Sets the planet budget; `None` keeps the default.
    pub fn max_planets(self, value: Option<usize>) -> (r: Self)
        ensures
            r.spec_max_planets() == value,
            r.spec_use_factory_planet() == self.spec_use_factory_planet(),
            r.spec_production_max_tier() == self.spec_production_max_tier(),
            r.spec_factory_max_tier() == self.spec_factory_max_tier(),
    {
        Builder { max_planets: value, ..self }
    }

    /// Sets the production-stage tier ceiling; `None` keeps the default.
    pub fn production_max_tier(self, value: Option<Tier>) -> (r: Self)
        ensures
            r.spec_production_max_tier() == value,
            r.spec_use_factory_planet() == self.spec_use_factory_planet(),
            r.spec_max_planets() == self.spec_max_planets(),
            r.spec_factory_max_tier() == self.spec_factory_max_tier(),
    {
        Builder { production_max_tier: value, ..self }
    }

    /// Sets the factory-stage tier ceiling; `None` keeps the default.
    pub fn factory_max_tier(self, value: Option<Tier>) -> (r: Self)
        ensures
            r.spec_factory_max_tier() == value,
            r.spec_use_factory_planet() == self.spec_use_factory_planet(),
            r.spec_max_planets() == self.spec_max_planets(),
            r.spec_production_max_tier() == self.spec_production_max_tier(),
    {
        Builder { factory_max_tier: value, ..self }
    }

    /// Resolves the knobs into a solver. When the factory stage runs, one
    /// planet slot is reserved for aggregation, so the subset size handed to
    /// the search is the budget less one; a budget below two with the factory
    /// stage enabled is a configuration error and is ruled out here.
    pub fn build(self) -> (solver: Solver)
        requires
            self.resolved_use_factory() ==> self.resolved_max_planets() >= 2,
        ensures
            solver.spec_use_factory_planet() == self.resolved_use_factory(),
            solver.spec_max_planets() == if self.resolved_use_factory() {
                (self.resolved_max_planets() - 1) as usize
            } else {
                self.resolved_max_planets()
            },
            solver.spec_production_max_tier() == self.resolved_production_max_tier(),
            solver.spec_factory_max_tier() == self.resolved_factory_max_tier(),
    {
        let use_factory_planet = match self.use_factory_planet {
            Option::Some(v) => v,
            Option::None => true,
        };
        let max_planets = match self.max_planets {
            Option::Some(v) => v,
            Option::None => 6,
        };
        let max_planets = if use_factory_planet {
            max_planets - 1
        } else {
            max_planets
        };
        let production_max_tier = match self.production_max_tier {
            Option::Some(t) => t,
            Option::None => {
                if use_factory_planet {
                    Tier::P1
                } else {
                    Tier::P4
                }
            },
        };
        let factory_max_tier = match self.factory_max_tier {
            Option::Some(t) => t,
            Option::None => Tier::P4,
        };
        Solver { factory_max_tier, production_max_tier, use_factory_planet, max_planets }
    }
}

/// The resolved solver parameters (see `Builder`): tier ceilings for the two
/// closure stages, whether the factory stage runs, and the size of the planet
/// subsets it evaluates.
pub struct Solver {
    production_max_tier: Tier,
    factory_max_tier: Tier,
    use_factory_planet: bool,
    max_planets: usize,
}

impl Solver {
    /// Tier ceiling of every per-planet closure run.
    pub closed spec fn spec_production_max_tier(self) -> Tier {
        self.production_max_tier
    }

    /// Tier ceiling of the factory-stage closure runs.
    pub closed spec fn spec_factory_max_tier(self) -> Tier {
        self.factory_max_tier
    }

    /// Whether the factory stage runs at all.
    pub closed spec fn spec_use_factory_planet(self) -> bool {
        self.use_factory_planet
    }

    /// The number of planets each factory subset combines.
    pub closed spec fn spec_max_planets(self) -> usize {
        self.max_planets
    }

    /// A fresh builder with every knob unset.
    pub fn builder() -> (r: Builder)
        ensures
            r.spec_use_factory_planet() is None,
            r.spec_max_planets() is None,
            r.spec_production_max_tier() is None,
            r.spec_factory_max_tier() is None,
    {
        Builder::default()
    }

    /// One production cycle: every catalog item at or below the tier ceiling
    /// whose recipe is fully satisfied by `inputs`, each exactly once.
    pub fn solve_cycle(&self, inputs: &Vec<Item>, item_manager: &ItemManager, max_tier: Tier) -> (outputs: Vec<
        Item,
    >)
        requires
            item_manager.wf(),
        ensures
            products_wf(outputs@, *item_manager),
            forall|k: int|
                0 <= k < outputs@.len() ==> cycle_output(
                    *item_manager,
                    max_tier,
                    id_set_items(inputs@),
                    (#[trigger] outputs@[k]).id@,
                ),
            forall|id: Seq<char>|
                #[trigger] cycle_output(*item_manager, max_tier, id_set_items(inputs@), id)
                    ==> id_set_items(outputs@).contains(id),
    {
        let ghost avail = id_set_items(inputs@);
        let ghost m = *item_manager;
        let mut outputs: Vec<Item> = Vec::new();
        let mut i: usize = 0;
        while i < inputs.len()
            invariant
                item_manager.wf(),
                m == *item_manager,
                avail == id_set_items(inputs@),
                i <= inputs@.len(),
                products_wf(outputs@, m),
                forall|k: int|
                    0 <= k < outputs@.len() ==> cycle_output(
                        m,
                        max_tier,
                        avail,
                        (#[trigger] outputs@[k]).id@,
                    ),
                forall|id: Seq<char>, l: int|
                    0 <= l < i && #[trigger] cycle_output(m, max_tier, avail, id)
                        && crate::item::consumes(m.item_of(id), (#[trigger] inputs@[l]).id@)
                        ==> id_set_items(outputs@).contains(id),
            decreases inputs@.len() - i,
        {
            match item_manager.get_products(&inputs[i]) {
                Option::None => {
                    proof {
                        assert forall|id: Seq<char>, l: int|
                            0 <= l < i + 1 && #[trigger] cycle_output(m, max_tier, avail, id)
                                && crate::item::consumes(
                                m.item_of(id),
                                (#[trigger] inputs@[l]).id@,
                            ) implies id_set_items(outputs@).contains(id) by {
                            if l == i {
                                assert(m.consumers_of(inputs@[l].id@).contains(id));
                            }
                        }
                    }
                },
                Option::Some(cs) => {
                    let mut j: usize = 0;
                    while j < cs.len()
                        invariant
                            item_manager.wf(),
                            m == *item_manager,
                            avail == id_set_items(inputs@),
                            0 <= i < inputs@.len(),
                            j <= cs@.len(),
                            id_set_items(cs@) == m.consumers_of(inputs@[i as int].id@),
                            forall|x: int|
                                0 <= x < cs@.len() ==> m.has_id((#[trigger] cs@[x]).id@) && cs@[x]@
                                    == m.item_of(cs@[x].id@),
                            products_wf(outputs@, m),
                            forall|k: int|
                                0 <= k < outputs@.len() ==> cycle_output(
                                    m,
                                    max_tier,
                                    avail,
                                    (#[trigger] outputs@[k]).id@,
                                ),
                            forall|id: Seq<char>, l: int|
                                0 <= l < i && #[trigger] cycle_output(m, max_tier, avail, id)
                                    && crate::item::consumes(
                                    m.item_of(id),
                                    (#[trigger] inputs@[l]).id@,
                                ) ==> id_set_items(outputs@).contains(id),
                            forall|x: int|
                                0 <= x < j && cycle_output(
                                    m,
                                    max_tier,
                                    avail,
                                    (#[trigger] cs@[x]).id@,
                                ) ==> id_set_items(outputs@).contains(cs@[x].id@),
                        decreases cs@.len() - j,
                    {
                        let c = &cs[j];
                        let mut fire = false;
                        if c.tier.le(max_tier) {
                            match &c.production {
                                Option::Some(p) => {
                                    if p.can_be_made_using(inputs) {
                                        fire = true;
                                        proof {
                                            assert(id_set_items(cs@).contains(cs@[j as int].id@));
                                            assert(m.consumers_of(inputs@[i as int].id@).contains(
                                                c.id@,
                                            ));
                                            assert(crate::item::consumes(
                                                m.item_of(c.id@),
                                                inputs@[i as int].id@,
                                            ));
                                            assert(num_inputs(m.item_of(c.id@)) > 0);
                                            assert(c@.production == Option::Some(p@));
                                            assert(cycle_output(m, max_tier, avail, c.id@));
                                        }
                                    }
                                },
                                Option::None => {},
                            }
                        }
                        if fire {
                            if !contains_id(&outputs, &c.id) {
                                let ghost pre = outputs@;
                                outputs.push(c.clone());
                                proof {
                                    lemma_id_set_push(pre, outputs@[pre.len() as int]);
                                    assert(outputs@[pre.len() as int].id@ == c.id@);
                                    assert(outputs@.drop_last() == pre);
                                }
                            }
                        }
                        proof {
                            if !cycle_output(m, max_tier, avail, cs@[j as int].id@) {
                            } else {
                                // either the recipe fired, or it was already present
                                let it = m.item_of(cs@[j as int].id@);
                                assert(cs@[j as int]@ == it);
                                assert(it.tier == c.tier);
                            }
                        }
                        j += 1;
                    }
                    proof {
                        assert forall|id: Seq<char>, l: int|
                            0 <= l < i + 1 && #[trigger] cycle_output(m, max_tier, avail, id)
                                && crate::item::consumes(
                                m.item_of(id),
                                (#[trigger] inputs@[l]).id@,
                            ) implies id_set_items(outputs@).contains(id) by {
                            if l == i {
                                assert(m.consumers_of(inputs@[l].id@).contains(id));
                                assert(id_set_items(cs@).contains(id));
                                let x = choose|x: int|
                                    0 <= x < cs@.len() && (#[trigger] cs@[x]).id@ == id;
                            }
                        }
                    }
                },
            }
            i += 1;
        }
        proof {
            assert forall|id: Seq<char>|
                #[trigger] cycle_output(m, max_tier, avail, id) implies id_set_items(
                outputs@,
            ).contains(id) by {
                let it = m.item_of(id);
                let p = it.production->0;
                assert(avail.contains(p.inputs[0].item_id));
                let l = choose|l: int|
                    0 <= l < inputs@.len() && (#[trigger] inputs@[l]).id@ == p.inputs[0].item_id;
                assert(input_id(it, 0) == p.inputs[0].item_id);
                assert(crate::item::consumes(it, inputs@[l].id@));
            }
        }
        outputs
    }

    /// The closure engine: the full set of items reachable from the initial
    /// inputs by repeatedly applying satisfied recipes, restricted to tiers
    /// strictly above `R0` and at most `max_tier`. The result is the least
    /// production-closed set over the initial ids.
    pub fn solve_cycles(
        &self,
        initial_inputs: &Vec<Item>,
        item_manager: &ItemManager,
        max_tier: Tier,
    ) -> (products: Vec<Item>)
        requires
            item_manager.wf(),
        ensures
            products_wf(products@, *item_manager),
            is_closure(
                *item_manager,
                max_tier,
                id_set_items(initial_inputs@),
                id_set_items(products@),
            ),
    {
        let ghost m = *item_manager;
        let ghost init_s = id_set_items(initial_inputs@);
        let mut products: Vec<Item> = Vec::new();
        let mut progress = true;
        while progress
            invariant
                item_manager.wf(),
                m == *item_manager,
                init_s == id_set_items(initial_inputs@),
                products_wf(products@, m),
                products@.len() <= m.catalog().len(),
                forall|q: Set<Seq<char>>|
                    #[trigger] closure_closed(m, max_tier, init_s, q) ==> id_set_items(
                        products@,
                    ).subset_of(q),
                !progress ==> closure_closed(m, max_tier, init_s, id_set_items(products@)),
            decreases m.catalog().len() - products@.len() + (if progress {
                1int
            } else {
                0int
            }),
        {
            let ghost old_products = products@;
            let mut avail: Vec<Item> = Vec::new();
            let mut a: usize = 0;
            while a < initial_inputs.len()
                invariant
                    a <= initial_inputs@.len(),
                    avail@.len() == a as int,
                    forall|t: int| 0 <= t < a ==> (#[trigger] avail@[t])@ == initial_inputs@[t]@,
                decreases initial_inputs@.len() - a,
            {
                avail.push(initial_inputs[a].clone());
                a += 1;
            }
            let ni = avail.len();
            let mut b: usize = 0;
            while b < products.len()
                invariant
                    ni == initial_inputs@.len(),
                    b <= products@.len(),
                    avail@.len() == ni + b,
                    forall|t: int| 0 <= t < ni ==> (#[trigger] avail@[t])@ == initial_inputs@[t]@,
                    forall|t: int|
                        0 <= t < b ==> (#[trigger] avail@[ni + t])@ == products@[t]@,
                decreases products@.len() - b,
            {
                avail.push(products[b].clone());
                b += 1;
            }
            proof {
                assert forall|id: Seq<char>|
                    id_set_items(avail@).contains(id) <==> init_s.union(
                        id_set_items(products@),
                    ).contains(id) by {
                    if id_set_items(avail@).contains(id) {
                        let k = choose|k: int|
                            0 <= k < avail@.len() && (#[trigger] avail@[k]).id@ == id;
                        if k < ni {
                            assert(avail@[k]@ == initial_inputs@[k]@);
                            assert(initial_inputs@[k].id@ == id);
                        } else {
                            assert(avail@[ni + (k - ni)]@ == products@[k - ni]@);
                            assert(products@[k - ni].id@ == id);
                        }
                    }
                    if init_s.contains(id) {
                        let k = choose|k: int|
                            0 <= k < initial_inputs@.len() && (#[trigger] initial_inputs@[k]).id@
                                == id;
                        assert(avail@[k].id@ == id);
                    }
                    if id_set_items(products@).contains(id) {
                        let k = choose|k: int|
                            0 <= k < products@.len() && (#[trigger] products@[k]).id@ == id;
                        assert(avail@[ni + k].id@ == id);
                    }
                }
                assert(id_set_items(avail@) =~= init_s.union(id_set_items(products@)));
            }
            let ghost avail_set = id_set_items(avail@);
            let cycle_outputs = self.solve_cycle(&avail, item_manager, max_tier);
            let mut inserted: usize = 0;
            let mut c: usize = 0;
            while c < cycle_outputs.len()
                invariant
                    item_manager.wf(),
                    m == *item_manager,
                    init_s == id_set_items(initial_inputs@),
                    avail_set == init_s.union(id_set_items(old_products)),
                    c <= cycle_outputs@.len(),
                    products_wf(products@, m),
                    products_wf(cycle_outputs@, m),
                    products@.len() <= m.catalog().len(),
                    inserted <= c,
                    products@.len() == old_products.len() + inserted,
                    id_set_items(old_products).subset_of(id_set_items(products@)),
                    forall|k: int|
                        0 <= k < cycle_outputs@.len() ==> cycle_output(
                            m,
                            max_tier,
                            avail_set,
                            (#[trigger] cycle_outputs@[k]).id@,
                        ),
                    forall|id: Seq<char>|
                        #[trigger] cycle_output(m, max_tier, avail_set, id) ==> id_set_items(
                            cycle_outputs@,
                        ).contains(id),
                    forall|q: Set<Seq<char>>|
                        #[trigger] closure_closed(m, max_tier, init_s, q) ==> id_set_items(
                            products@,
                        ).subset_of(q),
                    inserted == 0 ==> forall|x: int|
                        0 <= x < c && m.item_of((#[trigger] cycle_outputs@[x]).id@).tier.rank() > 0
                            ==> id_set_items(products@).contains(cycle_outputs@[x].id@),
                    inserted == 0 ==> products@ == old_products,
                decreases cycle_outputs@.len() - c,
            {
                let out = &cycle_outputs[c];
                let allowed = Tier::R0.lt(out.tier) && out.tier.le(max_tier);
                if allowed && !contains_id(&products, &out.id) {
                    let ghost pre = products@;
                    products.push(out.clone());
                    inserted += 1;
                    proof {
                        lemma_id_set_push(pre, products@[pre.len() as int]);
                        assert(out@ == m.item_of(out.id@));
                        assert(out@.tier == out.tier);
                        assert(producible(m, max_tier, avail_set, out.id@));
                        assert forall|q: Set<Seq<char>>|
                            #[trigger] closure_closed(m, max_tier, init_s, q) implies id_set_items(
                            products@,
                        ).subset_of(q) by {
                            assert(id_set_items(pre).subset_of(q));
                            assert(id_set_items(old_products).subset_of(q));
                            assert(init_s.union(id_set_items(old_products)).subset_of(
                                init_s.union(q),
                            ));
                            lemma_producible_monotone(
                                m,
                                max_tier,
                                avail_set,
                                init_s.union(q),
                                out.id@,
                            );
                            assert(q.contains(out.id@));
                        }
                        lemma_products_len(products@, m);
                    }
                } else {
                    proof {
                        if inserted == 0 && m.item_of(cycle_outputs@[c as int].id@).tier.rank()
                            > 0 {
                            assert(cycle_outputs@[c as int]@ == m.item_of(
                                cycle_outputs@[c as int].id@,
                            ));
                            assert(Tier::R0.rank() < out.tier.rank());
                            assert(id_set_items(products@).contains(out.id@));
                        }
                    }
                }
                c += 1;
            }
            if inserted == 0 {
                progress = false;
                proof {
                    assert forall|id: Seq<char>|
                        #[trigger] producible(
                            m,
                            max_tier,
                            init_s.union(id_set_items(products@)),
                            id,
                        ) implies id_set_items(products@).contains(id) by {
                        assert(cycle_output(m, max_tier, avail_set, id));
                        let x = choose|x: int|
                            0 <= x < cycle_outputs@.len() && (#[trigger] cycle_outputs@[x]).id@
                                == id;
                    }
                }
            }
        }
        proof {
            assert(closure_closed(m, max_tier, init_s, id_set_items(products@)));
        }
        products
    }

    /// Runs the whole pipeline: one closure per planet under the production
    /// ceiling, then — when the factory stage is enabled — one closure per
    /// planet subset of the configured size, over the union of the subset's
    /// per-planet products, under the factory ceiling. Exactly
    /// `C(n, max_planets)` factory solutions come back, one per subset.
    pub fn solve(&self, planets: &Vec<Planet>, item_manager: &ItemManager) -> (simulation:
        Simulation)
        requires
            item_manager.wf(),
        ensures
            simulation.planet_solutions@.len() == planets@.len(),
            forall|k: int|
                0 <= k < planets@.len() ==> planet_solution_ok(
                    #[trigger] simulation.planet_solutions@[k],
                    planets@[k],
                    *item_manager,
                    self.spec_production_max_tier(),
                ),
            !self.spec_use_factory_planet() ==> simulation.factory_solutions@.len() == 0,
            self.spec_use_factory_planet() ==> {
                let idxs = combos(
                    Seq::new(planets@.len() as nat, |i: int| i as usize),
                    self.spec_max_planets() as nat,
                );
                &&& simulation.factory_solutions@.len() == idxs.len()
                &&& simulation.factory_solutions@.len() == binomial(
                    planets@.len() as nat,
                    self.spec_max_planets() as nat,
                )
                &&& forall|x: int|
                    0 <= x < idxs.len() ==> factory_solution_ok(
                        #[trigger] simulation.factory_solutions@[x],
                        simulation.planet_solutions@,
                        idxs[x],
                        *item_manager,
                        self.spec_factory_max_tier(),
                    )
            },
    {
        let ghost m = *item_manager;
        let mut planet_solutions: Vec<Solution> = Vec::new();
        let mut k: usize = 0;
        while k < planets.len()
            invariant
                item_manager.wf(),
                m == *item_manager,
                k <= planets@.len(),
                planet_solutions@.len() == k as int,
                forall|t: int|
                    0 <= t < k ==> planet_solution_ok(
                        #[trigger] planet_solutions@[t],
                        planets@[t],
                        m,
                        self.spec_production_max_tier(),
                    ),
            decreases planets@.len() - k,
        {
            let planet = &planets[k];
            let resources = planet.collect_resources();
            let products = self.solve_cycles(&resources, item_manager, self.production_max_tier);
            planet_solutions.push(Solution { planet: planet.clone(), products });
            k += 1;
        }
        let mut factory_solutions: Vec<FactorySolution> = Vec::new();
        if self.use_factory_planet {
            let n = planets.len();
            let mp = self.max_planets;
            let ghost ident = Seq::new(n as nat, |i: int| i as usize);
            let ghost idxs = combos(ident, mp as nat);
            proof {
                lemma_combos_elems(ident, mp as nat);
                lemma_combos_len(ident, mp as nat);
                assert forall|x2: int, j: int|
                    0 <= x2 < idxs.len() && 0 <= j < idxs[x2].len() implies (
                #[trigger] idxs[x2][j]) < n by {
                    assert(ident.contains(idxs[x2][j]));
                    let i = choose|i: int| 0 <= i < ident.len() && ident[i] == idxs[x2][j];
                    assert(ident[i] == i as usize);
                }
            }
            let combo_list = index_combinations(n, mp);
            let mut x: usize = 0;
            while x < combo_list.len()
                invariant
                    item_manager.wf(),
                    m == *item_manager,
                    n == planets@.len(),
                    planet_solutions@.len() == planets@.len(),
                    forall|t: int|
                        0 <= t < planets@.len() ==> planet_solution_ok(
                            #[trigger] planet_solutions@[t],
                            planets@[t],
                            m,
                            self.spec_production_max_tier(),
                        ),
                    ident == Seq::new(n as nat, |i: int| i as usize),
                    idxs == combos(ident, mp as nat),
                    combo_list@.map_values(|c: Vec<usize>| c@) == idxs,
                    forall|x2: int| 0 <= x2 < idxs.len() ==> (#[trigger] idxs[x2]).len() == mp as int,
                    forall|x2: int, j: int|
                        0 <= x2 < idxs.len() && 0 <= j < idxs[x2].len() ==> (#[trigger] idxs[x2][j])
                            < n,
                    x <= combo_list@.len(),
                    factory_solutions@.len() == x as int,
                    forall|t: int|
                        0 <= t < x ==> factory_solution_ok(
                            #[trigger] factory_solutions@[t],
                            planet_solutions@,
                            idxs[t],
                            m,
                            self.spec_factory_max_tier(),
                        ),
                decreases combo_list@.len() - x,
            {
                proof {
                    assert(combo_list@[x as int]@ == idxs[x as int]);
                }
                let mut chosen: Vec<Solution> = Vec::new();
                let mut inputs: Vec<Item> = Vec::new();
                let mut y: usize = 0;
                while y < combo_list[x].len()
                    invariant
                        item_manager.wf(),
                        m == *item_manager,
                        n == planets@.len(),
                        planet_solutions@.len() == planets@.len(),
                        0 <= x < combo_list@.len(),
                        combo_list@[x as int]@ == idxs[x as int],
                        idxs == combos(ident, mp as nat),
                        forall|j: int|
                            0 <= j < idxs[x as int].len() ==> (#[trigger] idxs[x as int][j]) < n,
                        y <= idxs[x as int].len(),
                        chosen@.len() == y as int,
                        forall|t: int|
                            0 <= t < y ==> (#[trigger] chosen@[t])@ == planet_solutions@[idxs[x as int][t] as int]@,
                        id_set_items(inputs@) == subset_input_ids(
                            planet_solutions@,
                            idxs[x as int].subrange(0, y as int),
                        ),
                    decreases idxs[x as int].len() - y,
                {
                    let j = combo_list[x][y];
                    let ghost pre_inputs = inputs@;
                    chosen.push(planet_solutions[j].clone());
                    let mut z: usize = 0;
                    let prod_len = planet_solutions[j].products.len();
                    while z < prod_len
                        invariant
                            0 <= j < planet_solutions@.len(),
                            prod_len == planet_solutions@[j as int].products@.len(),
                            z <= prod_len,
                            inputs@.len() == pre_inputs.len() + z as int,
                            forall|t: int| 0 <= t < pre_inputs.len() ==> inputs@[t] == pre_inputs[t],
                            forall|t: int|
                                0 <= t < z ==> (#[trigger] inputs@[pre_inputs.len() + t])@
                                    == planet_solutions@[j as int].products@[t]@,
                        decreases prod_len - z,
                    {
                        inputs.push(planet_solutions[j].products[z].clone());
                        z += 1;
                    }
                    proof {
                        let sols = planet_solutions@;
                        let cx = idxs[x as int];
                        let jp = sols[j as int].products@;
                        assert forall|id: Seq<char>|
                            id_set_items(inputs@).contains(id) <==> subset_input_ids(
                                sols,
                                cx.subrange(0, y as int + 1),
                            ).contains(id) by {
                            if id_set_items(inputs@).contains(id) {
                                let t = choose|t: int|
                                    0 <= t < inputs@.len() && (#[trigger] inputs@[t]).id@ == id;
                                if t < pre_inputs.len() {
                                    assert(pre_inputs[t].id@ == id);
                                    assert(id_set_items(pre_inputs).contains(id));
                                    let y2 = choose|y2: int|
                                        0 <= y2 < cx.subrange(0, y as int).len()
                                            && #[trigger] id_set_items(
                                            sols[cx.subrange(0, y as int)[y2] as int].products@,
                                        ).contains(id);
                                    assert(cx.subrange(0, y as int + 1)[y2] == cx.subrange(
                                        0,
                                        y as int,
                                    )[y2]);
                                } else {
                                    assert(inputs@[pre_inputs.len() + (t - pre_inputs.len())]@
                                        == jp[t - pre_inputs.len()]@);
                                    assert(jp[t - pre_inputs.len()].id@ == id);
                                    assert(id_set_items(jp).contains(id));
                                    assert(cx.subrange(0, y as int + 1)[y as int] == cx[y as int]);
                                    assert(id_set_items(
                                        sols[cx.subrange(0, y as int + 1)[y as int] as int].products@,
                                    ).contains(id));
                                }
                            }
                            if subset_input_ids(sols, cx.subrange(0, y as int + 1)).contains(id) {
                                let y2 = choose|y2: int|
                                    0 <= y2 < cx.subrange(0, y as int + 1).len()
                                        && #[trigger] id_set_items(
                                        sols[cx.subrange(0, y as int + 1)[y2] as int].products@,
                                    ).contains(id);
                                if y2 < y {
                                    assert(cx.subrange(0, y as int)[y2] == cx.subrange(
                                        0,
                                        y as int + 1,
                                    )[y2]);
                                    assert(subset_input_ids(sols, cx.subrange(0, y as int)).contains(
                                        id,
                                    ));
                                    assert(id_set_items(pre_inputs).contains(id));
                                    let t = choose|t: int|
                                        0 <= t < pre_inputs.len() && (#[trigger] pre_inputs[t]).id@
                                            == id;
                                    assert(inputs@[t].id@ == id);
                                } else {
                                    assert(cx.subrange(0, y as int + 1)[y2] == cx[y as int]);
                                    let t = choose|t: int|
                                        0 <= t < jp.len() && (#[trigger] jp[t]).id@ == id;
                                    assert(inputs@[pre_inputs.len() + t]@ == jp[t]@);
                                    assert(inputs@[pre_inputs.len() + t].id@ == id);
                                }
                            }
                        }
                        assert(id_set_items(inputs@) =~= subset_input_ids(
                            sols,
                            cx.subrange(0, y as int + 1),
                        ));
                    }
                    y += 1;
                }
                proof {
                    assert(idxs[x as int].subrange(0, idxs[x as int].len() as int) == idxs[x as int]);
                }
                let products = self.solve_cycles(&inputs, item_manager, self.factory_max_tier);
                factory_solutions.push(FactorySolution { planets: chosen, products });
                x += 1;
            }
        }
        Simulation { planet_solutions, factory_solutions }
    }
}

/// One planet's outcome: the planet and the items its resources can produce.
pub struct Solution {
    pub planet: Planet,
    pub products: Vec<Item>,
}

/// Mathematical view of a `Solution`.
pub struct SolutionV {
    pub planet: PlanetV,
    pub products: Seq<ItemV>,
}

impl View for Solution {
    type V = SolutionV;

    open spec fn view(&self) -> SolutionV {
        SolutionV {
            planet: self.planet@,
            products: self.products@.map_values(|it: Item| it@),
        }
    }
}

impl Clone for Solution {
    fn clone(&self) -> (r: Self)
        ensures
            r@ == self@,
    {
        let mut products: Vec<Item> = Vec::new();
        let mut k: usize = 0;
        while k < self.products.len()
            invariant
                k <= self.products@.len(),
                products@.len() == k as int,
                forall|t: int| 0 <= t < k ==> products@[t]@ == self.products@[t]@,
            decreases self.products@.len() - k,
        {
            products.push(self.products[k].clone());
            k += 1;
        }
        proof {
            assert(products@.map_values(|it: Item| it@) =~= self.products@.map_values(
                |it: Item| it@,
            ));
        }
        Solution { planet: self.planet.clone(), products }
    }
}

/// One factory candidate: the chosen planet solutions and the items their
/// combined outputs can produce under the factory ceiling.
pub struct FactorySolution {
    pub planets: Vec<Solution>,
    pub products: Vec<Item>,
}

/// The outcome of a full solver run: one solution per planet and, when the
/// factory stage ran, one solution per planet subset.
pub struct Simulation {
    pub planet_solutions: Vec<Solution>,
    pub factory_solutions: Vec<FactorySolution>,
}

/// The ids a planet subset feeds to the factory stage: the union of the
/// chosen solutions' product ids.
pub open spec fn subset_input_ids(sols: Seq<Solution>, idx: Seq<usize>) -> Set<Seq<char>> {
    Set::new(
        |id: Seq<char>|
            exists|y: int|
                0 <= y < idx.len() && #[trigger] id_set_items(
                    sols[idx[y] as int].products@,
                ).contains(id),
    )
}

/// The solution correctly describes the planet: it carries a copy of the
/// planet, and its products are the closure of the planet's resource ids
/// under the given ceiling.
pub open spec fn planet_solution_ok(sol: Solution, p: Planet, m: ItemManager, t: Tier) -> bool {
    &&& sol@.planet == p@
    &&& products_wf(sol.products@, m)
    &&& is_closure(m, t, planet_resource_ids(p@), id_set_items(sol.products@))
}

/// The factory solution correctly describes the subset `idx`: it carries
/// copies of the chosen solutions, and its products are the closure of the
/// union of their product ids under the given ceiling.
pub open spec fn factory_solution_ok(
    fs: FactorySolution,
    sols: Seq<Solution>,
    idx: Seq<usize>,
    m: ItemManager,
    t: Tier,
) -> bool {
    &&& fs.planets@.len() == idx.len()
    &&& forall|y: int| 0 <= y < idx.len() ==> (#[trigger] fs.planets@[y])@ == sols[idx[y] as int]@
    &&& products_wf(fs.products@, m)
    &&& is_closure(m, t, subset_input_ids(sols, idx), id_set_items(fs.products@))
}

/// The sequence of indices is strictly increasing.
pub open spec fn ascending(c: Seq<usize>) -> bool {
    forall|a: int, b: int| 0 <= a < b < c.len() ==> c[a] < c[b]
}

/// `c` lists the members of `s` in ascending order, each exactly once.
pub open spec fn enumerates(c: Seq<usize>, s: Set<usize>) -> bool {
    &&& val_set(c) == s
    &&& c.len() == s.len()
    &&& ascending(c)
}

/// Appending an index adds exactly its value to the value set.
pub proof fn lemma_val_set_push(s: Seq<usize>, v: usize)
    ensures
        val_set(s.push(v)) == val_set(s).insert(v),
{
    assert forall|w: usize|
        val_set(s.push(v)).contains(w) <==> val_set(s).insert(v).contains(w) by {
        if val_set(s.push(v)).contains(w) {
            let i = choose|i: int| 0 <= i < s.push(v).len() && s.push(v)[i] == w;
            if i < s.len() {
                assert(s[i] == w);
            }
        }
        if val_set(s).contains(w) {
            let i = choose|i: int| 0 <= i < s.len() && s[i] == w;
            assert(s.push(v)[i] == w);
        }
        if w == v {
            assert(s.push(v)[s.len() as int] == w);
        }
    }
    assert(val_set(s.push(v)) =~= val_set(s).insert(v));
}

/// Every finite set of indices below a bound has an ascending enumeration.
pub proof fn lemma_ascending_enumeration(s: Set<usize>, n: usize)
    requires
        s.finite(),
        forall|e: usize| s.contains(e) ==> e < n,
    ensures
        exists|c: Seq<usize>| #[trigger] enumerates(c, s),
    decreases n,
{
    if n == 0 {
        assert(s =~= Set::<usize>::empty());
        let c = Seq::<usize>::empty();
        assert(val_set(c) =~= Set::<usize>::empty());
        assert(enumerates(c, s));
    } else {
        let top = (n - 1) as usize;
        if s.contains(top) {
            let s2 = s.remove(top);
            assert forall|e: usize| s2.contains(e) implies e < top by {
                assert(s.contains(e));
            }
            lemma_ascending_enumeration(s2, top);
            let c2 = choose|c2: Seq<usize>| #[trigger] enumerates(c2, s2);
            let c = c2.push(top);
            lemma_val_set_push(c2, top);
            assert(s2.insert(top) =~= s);
            assert forall|a: int, b: int| 0 <= a < b < c.len() implies c[a] < c[b] by {
                if b < c.len() - 1 {
                    assert(c2[a] < c2[b]);
                } else {
                    assert(c[a] == c2[a]);
                    assert(val_set(c2).contains(c2[a]));
                    assert(s2.contains(c2[a]));
                }
            }
            assert(enumerates(c, s));
        } else {
            assert forall|e: usize| s.contains(e) implies e < top by {}
            lemma_ascending_enumeration(s, top);
        }
    }
}

/// The index sequence `0, 1, .., n-1`.
pub open spec fn identity_indices(n: usize) -> Seq<usize> {
    Seq::new(n as nat, |i: int| i as usize)
}

/// What identifies one factory candidate regardless of ordering: the set of
/// chosen planets, each paired with its product ids.
pub open spec fn chosen_outcomes(fs: FactorySolution) -> Set<(PlanetV, Set<Seq<char>>)> {
    Set::new(
        |pr: (PlanetV, Set<Seq<char>>)|
            exists|t: int|
                0 <= t < fs.planets@.len() && pr == (
                    (#[trigger] fs.planets@[t])@.planet,
                    id_set_items(fs.planets@[t].products@),
                ),
    )
}

/// The id set of a sequence of items equals the id set of its views.
pub proof fn lemma_id_sets_agree(s: Seq<Item>)
    ensures
        id_set_views(s.map_values(|it: Item| it@)) == id_set_items(s),
{
    let sv = s.map_values(|it: Item| it@);
    assert forall|id: Seq<char>| id_set_views(sv).contains(id) <==> id_set_items(s).contains(
        id,
    ) by {
        if id_set_views(sv).contains(id) {
            let k = choose|k: int| 0 <= k < sv.len() && (#[trigger] sv[k]).id == id;
            assert(s[k].id@ == id);
        }
        if id_set_items(s).contains(id) {
            let k = choose|k: int| 0 <= k < s.len() && (#[trigger] s[k]).id@ == id;
            assert(sv[k].id == id);
        }
    }
    assert(id_set_views(sv) =~= id_set_items(s));
}

/// Law (order independence of the per-planet stage): permuting the planet
/// list permutes the planet solutions with it — each solution of the permuted
/// run carries the same planet and exactly the same product ids as the
/// corresponding solution of the base run.
pub proof fn lemma_planet_solutions_permute(
    m: ItemManager,
    t: Tier,
    planets_a: Seq<Planet>,
    planets_b: Seq<Planet>,
    sols_a: Seq<Solution>,
    sols_b: Seq<Solution>,
    perm: Seq<usize>,
)
    requires
        planets_a.len() == planets_b.len(),
        perm.len() == planets_b.len(),
        forall|i: int| 0 <= i < perm.len() ==> (#[trigger] perm[i]) < planets_a.len(),
        forall|i: int| 0 <= i < perm.len() ==> (#[trigger] planets_b[i])@ == planets_a[perm[i] as int]@,
        sols_a.len() == planets_a.len(),
        sols_b.len() == planets_b.len(),
        forall|k: int|
            0 <= k < planets_a.len() ==> planet_solution_ok(
                #[trigger] sols_a[k],
                planets_a[k],
                m,
                t,
            ),
        forall|k: int|
            0 <= k < planets_b.len() ==> planet_solution_ok(
                #[trigger] sols_b[k],
                planets_b[k],
                m,
                t,
            ),
    ensures
        forall|i: int|
            0 <= i < perm.len() ==> (#[trigger] sols_b[i])@.planet == sols_a[perm[i] as int]@.planet
                && id_set_items(sols_b[i].products@) == id_set_items(
                sols_a[perm[i] as int].products@,
            ),
{
    assert forall|i: int|
        0 <= i < perm.len() implies (#[trigger] sols_b[i])@.planet
        == sols_a[perm[i] as int]@.planet && id_set_items(sols_b[i].products@) == id_set_items(
        sols_a[perm[i] as int].products@,
    ) by {
        let j = perm[i] as int;
        assert(planet_solution_ok(sols_b[i], planets_b[i], m, t));
        assert(planet_solution_ok(sols_a[j], planets_a[j], m, t));
        assert(planet_resource_ids(planets_b[i]@) == planet_resource_ids(planets_a[j]@));
        lemma_closure_unique(
            m,
            t,
            planet_resource_ids(planets_a[j]@),
            id_set_items(sols_b[i].products@),
            id_set_items(sols_a[j].products@),
        );
    }
}

/// Some factory solution among `fss` has the same chosen planets (with the
/// same product ids) and the same factory products as `fs`.
pub open spec fn outcome_covered(fss: Seq<FactorySolution>, fs: FactorySolution) -> bool {
    exists|y: int|
        0 <= y < fss.len() && chosen_outcomes(#[trigger] fss[y]) == chosen_outcomes(fs)
            && id_set_items(fss[y].products@) == id_set_items(fs.products@)
}

/// Law (order independence of the factory stage, one inclusion): every
/// factory solution of a run over a permuted planet list appears — same
/// chosen planets with the same product ids, same factory products — among
/// the factory solutions of the base run.
#[verifier::rlimit(100)]
pub proof fn lemma_factory_outcomes_covered(
    m: ItemManager,
    tp: Tier,
    tf: Tier,
    planets_a: Seq<Planet>,
    planets_b: Seq<Planet>,
    sols_a: Seq<Solution>,
    sols_b: Seq<Solution>,
    fss_a: Seq<FactorySolution>,
    fss_b: Seq<FactorySolution>,
    perm: Seq<usize>,
    n: usize,
    mp: usize,
)
    requires
        planets_a.len() == n as int,
        planets_b.len() == n as int,
        perm.len() == n as int,
        forall|i: int| 0 <= i < n ==> (#[trigger] perm[i]) < n,
        forall|i: int, j: int| 0 <= i < j < n ==> perm[i] != perm[j],
        forall|i: int| 0 <= i < n ==> (#[trigger] planets_b[i])@ == planets_a[perm[i] as int]@,
        sols_a.len() == n as int,
        sols_b.len() == n as int,
        forall|k: int|
            0 <= k < n ==> planet_solution_ok(#[trigger] sols_a[k], planets_a[k], m, tp),
        forall|k: int|
            0 <= k < n ==> planet_solution_ok(#[trigger] sols_b[k], planets_b[k], m, tp),
        fss_a.len() == combos(identity_indices(n), mp as nat).len(),
        fss_b.len() == combos(identity_indices(n), mp as nat).len(),
        forall|x: int|
            0 <= x < fss_a.len() ==> factory_solution_ok(
                #[trigger] fss_a[x],
                sols_a,
                combos(identity_indices(n), mp as nat)[x],
                m,
                tf,
            ),
        forall|x: int|
            0 <= x < fss_b.len() ==> factory_solution_ok(
                #[trigger] fss_b[x],
                sols_b,
                combos(identity_indices(n), mp as nat)[x],
                m,
                tf,
            ),
    ensures
        forall|x: int|
            0 <= x < fss_b.len() ==> outcome_covered(fss_a, #[trigger] fss_b[x]),
{
    let ident = identity_indices(n);
    let idxs = combos(ident, mp as nat);
    assert forall|a: int, b: int| 0 <= a < b < ident.len() implies ident[a] < ident[b] by {}
    lemma_combos_elems(ident, mp as nat);
    lemma_combos_increasing(ident, mp as nat);
    assert forall|e: usize| ident.contains(e) implies e < n by {
        let i = choose|i: int| 0 <= i < ident.len() && ident[i] == e;
    }
    lemma_planet_solutions_permute(m, tp, planets_a, planets_b, sols_a, sols_b, perm);
    assert forall|x: int| 0 <= x < fss_b.len() implies outcome_covered(
        fss_a,
        #[trigger] fss_b[x],
    ) by {
        let cb = idxs[x];
        assert(cb.len() == mp as int);
        assert forall|t: int| 0 <= t < cb.len() implies (#[trigger] cb[t]) < n by {
            assert(ident.contains(cb[t]));
        }
        let mapped = Seq::new(cb.len() as nat, |t: int| perm[cb[t] as int]);
        assert forall|a: int, b: int| 0 <= a < b < mapped.len() implies mapped[a] != mapped[b] by {
            assert(cb[a] < cb[b]);
            assert(perm[cb[a] as int] != perm[cb[b] as int]);
        }
        lemma_val_set_len_distinct(mapped);
        let s = val_set(mapped);
        assert forall|e: usize| s.contains(e) implies e < n by {
            let t = choose|t: int| 0 <= t < mapped.len() && mapped[t] == e;
        }
        lemma_ascending_enumeration(s, n);
        let ca = choose|ca: Seq<usize>| #[trigger] enumerates(ca, s);
        assert(ca.len() == mp as int);
        assert forall|j: int| 0 <= j < ca.len() implies ident.contains(#[trigger] ca[j]) by {
            assert(val_set(ca).contains(ca[j]));
            assert(ca[j] < n);
            assert(ident[ca[j] as int] == ca[j]);
        }
        lemma_combos_complete(ident, mp as nat, ca);
        let y = choose|y: int| 0 <= y < idxs.len() && idxs[y] == ca;
        // the two subsets feed the factory stage the same ids
        assert forall|id: Seq<char>|
            subset_input_ids(sols_b, cb).contains(id) <==> subset_input_ids(sols_a, ca).contains(
                id,
            ) by {
            if subset_input_ids(sols_b, cb).contains(id) {
                let t = choose|t: int|
                    0 <= t < cb.len() && #[trigger] id_set_items(
                        sols_b[cb[t] as int].products@,
                    ).contains(id);
                let v = perm[cb[t] as int];
                assert(mapped[t] == v);
                assert(s.contains(v));
                assert(val_set(ca).contains(v));
                let t2 = choose|t2: int| 0 <= t2 < ca.len() && ca[t2] == v;
                assert(id_set_items(sols_b[cb[t] as int].products@) == id_set_items(
                    sols_a[v as int].products@,
                ));
                assert(id_set_items(sols_a[ca[t2] as int].products@).contains(id));
            }
            if subset_input_ids(sols_a, ca).contains(id) {
                let t2 = choose|t2: int|
                    0 <= t2 < ca.len() && #[trigger] id_set_items(
                        sols_a[ca[t2] as int].products@,
                    ).contains(id);
                let v = ca[t2];
                assert(val_set(ca).contains(v));
                assert(s.contains(v));
                let t = choose|t: int| 0 <= t < mapped.len() && mapped[t] == v;
                assert(perm[cb[t] as int] == v);
                assert(id_set_items(sols_b[cb[t] as int].products@) == id_set_items(
                    sols_a[v as int].products@,
                ));
                assert(id_set_items(sols_b[cb[t] as int].products@).contains(id));
            }
        }
        assert(subset_input_ids(sols_b, cb) =~= subset_input_ids(sols_a, ca));
        assert(factory_solution_ok(fss_b[x], sols_b, cb, m, tf));
        assert(factory_solution_ok(fss_a[y], sols_a, ca, m, tf));
        lemma_closure_unique(
            m,
            tf,
            subset_input_ids(sols_a, ca),
            id_set_items(fss_b[x].products@),
            id_set_items(fss_a[y].products@),
        );
        // the chosen planets, with their products, form the same set
        assert forall|pr: (PlanetV, Set<Seq<char>>)|
            chosen_outcomes(fss_b[x]).contains(pr) <==> chosen_outcomes(fss_a[y]).contains(
                pr,
            ) by {
            if chosen_outcomes(fss_b[x]).contains(pr) {
                let t = choose|t: int|
                    0 <= t < fss_b[x].planets@.len() && pr == (
                        (#[trigger] fss_b[x].planets@[t])@.planet,
                        id_set_items(fss_b[x].planets@[t].products@),
                    );
                let v = perm[cb[t] as int];
                assert(mapped[t] == v);
                assert(val_set(ca).contains(v));
                let t2 = choose|t2: int| 0 <= t2 < ca.len() && ca[t2] == v;
                assert(fss_b[x].planets@[t]@ == sols_b[cb[t] as int]@);
                assert(fss_a[y].planets@[t2]@ == sols_a[v as int]@);
                lemma_id_sets_agree(fss_b[x].planets@[t].products@);
                lemma_id_sets_agree(sols_b[cb[t] as int].products@);
                lemma_id_sets_agree(fss_a[y].planets@[t2].products@);
                lemma_id_sets_agree(sols_a[v as int].products@);
                assert(id_set_items(fss_b[x].planets@[t].products@) == id_set_items(
                    sols_b[cb[t] as int].products@,
                ));
                assert(id_set_items(fss_a[y].planets@[t2].products@) == id_set_items(
                    sols_a[v as int].products@,
                ));
                assert(sols_b[cb[t] as int]@.planet == sols_a[v as int]@.planet);
                assert(pr == (
                    fss_a[y].planets@[t2]@.planet,
                    id_set_items(fss_a[y].planets@[t2].products@),
                ));
            }
            if chosen_outcomes(fss_a[y]).contains(pr) {
                let t2 = choose|t2: int|
                    0 <= t2 < fss_a[y].planets@.len() && pr == (
                        (#[trigger] fss_a[y].planets@[t2])@.planet,
                        id_set_items(fss_a[y].planets@[t2].products@),
                    );
                let v = ca[t2];
                assert(val_set(ca).contains(v));
                assert(s.contains(v));
                let t = choose|t: int| 0 <= t < mapped.len() && mapped[t] == v;
                assert(perm[cb[t] as int] == v);
                assert(fss_a[y].planets@[t2]@ == sols_a[v as int]@);
                assert(fss_b[x].planets@[t]@ == sols_b[cb[t] as int]@);
                lemma_id_sets_agree(fss_b[x].planets@[t].products@);
                lemma_id_sets_agree(sols_b[cb[t] as int].products@);
                lemma_id_sets_agree(fss_a[y].planets@[t2].products@);
                lemma_id_sets_agree(sols_a[v as int].products@);
                assert(id_set_items(fss_b[x].planets@[t].products@) == id_set_items(
                    sols_b[cb[t] as int].products@,
                ));
                assert(id_set_items(fss_a[y].planets@[t2].products@) == id_set_items(
                    sols_a[v as int].products@,
                ));
                assert(sols_b[cb[t] as int]@.planet == sols_a[v as int]@.planet);
                assert(pr == (
                    fss_b[x].planets@[t]@.planet,
                    id_set_items(fss_b[x].planets@[t].products@),
                ));
            }
        }
        assert(chosen_outcomes(fss_b[x]) =~= chosen_outcomes(fss_a[y]));
        assert(0 <= y < fss_a.len() && chosen_outcomes(fss_a[y]) == chosen_outcomes(fss_b[x])
            && id_set_items(fss_a[y].products@) == id_set_items(fss_b[x].products@));
        assert(outcome_covered(fss_a, fss_b[x]));
    }
}

/// Law (order independence of the whole run): when one planet list is a
/// permutation of the other and both runs satisfy `solve`'s contract under
/// the same catalog and ceilings, the runs agree up to list order — each
/// permuted planet solution carries the same planet and product ids as its
/// counterpart, and the two factory-solution lists cover each other outcome
/// for outcome.
pub proof fn lemma_solve_order_independent(
    m: ItemManager,
    tp: Tier,
    tf: Tier,
    planets_a: Seq<Planet>,
    planets_b: Seq<Planet>,
    sols_a: Seq<Solution>,
    sols_b: Seq<Solution>,
    fss_a: Seq<FactorySolution>,
    fss_b: Seq<FactorySolution>,
    perm: Seq<usize>,
    n: usize,
    mp: usize,
)
    requires
        planets_a.len() == n as int,
        planets_b.len() == n as int,
        perm.len() == n as int,
        forall|i: int| 0 <= i < n ==> (#[trigger] perm[i]) < n,
        forall|i: int, j: int| 0 <= i < j < n ==> perm[i] != perm[j],
        forall|i: int| 0 <= i < n ==> (#[trigger] planets_b[i])@ == planets_a[perm[i] as int]@,
        sols_a.len() == n as int,
        sols_b.len() == n as int,
        forall|k: int|
            0 <= k < n ==> planet_solution_ok(#[trigger] sols_a[k], planets_a[k], m, tp),
        forall|k: int|
            0 <= k < n ==> planet_solution_ok(#[trigger] sols_b[k], planets_b[k], m, tp),
        fss_a.len() == combos(identity_indices(n), mp as nat).len(),
        fss_b.len() == combos(identity_indices(n), mp as nat).len(),
        forall|x: int|
            0 <= x < fss_a.len() ==> factory_solution_ok(
                #[trigger] fss_a[x],
                sols_a,
                combos(identity_indices(n), mp as nat)[x],
                m,
                tf,
            ),
        forall|x: int|
            0 <= x < fss_b.len() ==> factory_solution_ok(
                #[trigger] fss_b[x],
                sols_b,
                combos(identity_indices(n), mp as nat)[x],
                m,
                tf,
            ),
    ensures
        forall|i: int|
            0 <= i < n ==> (#[trigger] sols_b[i])@.planet == sols_a[perm[i] as int]@.planet
                && id_set_items(sols_b[i].products@) == id_set_items(
                sols_a[perm[i] as int].products@,
            ),
        forall|x: int| 0 <= x < fss_b.len() ==> outcome_covered(fss_a, #[trigger] fss_b[x]),
        forall|y: int| 0 <= y < fss_a.len() ==> outcome_covered(fss_b, #[trigger] fss_a[y]),
{
    lemma_planet_solutions_permute(m, tp, planets_a, planets_b, sols_a, sols_b, perm);
    lemma_factory_outcomes_covered(
        m,
        tp,
        tf,
        planets_a,
        planets_b,
        sols_a,
        sols_b,
        fss_a,
        fss_b,
        perm,
        n,
        mp,
    );
    // a permutation of 0..n hits every index: derive surjectivity, build the
    // inverse, and apply the covering lemma the other way round
    let ident = identity_indices(n);
    assert forall|a: int, b: int| 0 <= a < b < ident.len() implies ident[a] != ident[b] by {}
    lemma_val_set_len_distinct(ident);
    lemma_val_set_len_distinct(perm);
    assert forall|j: usize| j < n implies val_set(perm).contains(j) by {
        if !val_set(perm).contains(j) {
            assert forall|e: usize| val_set(perm).contains(e) implies val_set(ident).remove(
                j,
            ).contains(e) by {
                let t = choose|t: int| 0 <= t < perm.len() && perm[t] == e;
                assert(e < n);
                assert(ident[e as int] == e);
            }
            assert(val_set(ident).contains(j)) by {
                assert(ident[j as int] == j);
            }
            lemma_len_subset(val_set(perm), val_set(ident).remove(j));
            assert(false);
        }
    }
    let inv = Seq::new(
        n as nat,
        |j: int| (choose|i: int| 0 <= i < n && perm[i] == j as usize) as usize,
    );
    assert forall|j: int| 0 <= j < n implies (#[trigger] inv[j]) < n && perm[inv[j] as int] == j
        as usize by {
        assert(val_set(perm).contains(j as usize));
        let t = choose|t: int| 0 <= t < perm.len() && perm[t] == j as usize;
        assert(exists|i: int| 0 <= i < n && perm[i] == j as usize);
        let i0 = choose|i: int| 0 <= i < n && perm[i] == j as usize;
        assert(inv[j] == i0 as usize);
    }
    assert forall|j1: int, j2: int| 0 <= j1 < j2 < n implies inv[j1] != inv[j2] by {
        if inv[j1] == inv[j2] {
            assert(perm[inv[j1] as int] == j1 as usize);
            assert(perm[inv[j2] as int] == j2 as usize);
        }
    }
    assert forall|j: int| 0 <= j < n implies (#[trigger] planets_a[j])@ == planets_b[inv[j] as int]@ by {
        assert(planets_b[inv[j] as int]@ == planets_a[perm[inv[j] as int] as int]@);
    }
    lemma_factory_outcomes_covered(
        m,
        tp,
        tf,
        planets_b,
        planets_a,
        sols_b,
        sols_a,
        fss_b,
        fss_a,
        inv,
        n,
        mp,
    );
}

} // verus!

