use planet_solver::error::Error;
use planet_solver::item::{Input, Item, ItemManager, Production};
use planet_solver::solver::Solver;
use planet_solver::system::{Planet, System};
use planet_solver::Tier;

fn item(id: &str, tier: Tier, recipe: Option<Vec<(&str, u16)>>) -> Item {
    Item {
        id: String::from(id),
        label: String::from(id),
        tier,
        is_p4_input: false,
        production: recipe.map(|inputs| Production {
            quantity: 1,
            inputs: inputs
                .into_iter()
                .map(|(iid, amount)| Input { item_id: String::from(iid), amount })
                .collect(),
        }),
    }
}

fn catalog(items: Vec<Item>) -> ItemManager {
    ItemManager::new(items).expect("catalog must build")
}

/// ore (R0, raw), bar (P1, 2 ore), plate (P2, 1 bar).
fn basic_catalog() -> ItemManager {
    catalog(vec![
        item("ore", Tier::R0, None),
        item("bar", Tier::P1, Some(vec![("ore", 2)])),
        item("plate", Tier::P2, Some(vec![("bar", 1)])),
    ])
}

fn sorted_ids(products: &[Item]) -> Vec<String> {
    let mut ids: Vec<String> = products.iter().map(|it| it.id.clone()).collect();
    ids.sort();
    ids
}

fn solver() -> Solver {
    Solver::builder().build()
}

#[test]
fn closure_basic_p1_ceiling() {
    let m = basic_catalog();
    let initial = vec![item("ore", Tier::R0, None)];
    let products = solver().solve_cycles(&initial, &m, Tier::P1);
    assert_eq!(sorted_ids(&products), vec![String::from("bar")]);
}

#[test]
fn closure_basic_p4_ceiling() {
    let m = basic_catalog();
    let initial = vec![item("ore", Tier::R0, None)];
    let products = solver().solve_cycles(&initial, &m, Tier::P4);
    assert_eq!(sorted_ids(&products), vec![String::from("bar"), String::from("plate")]);
}

#[test]
fn closure_empty_initial_is_empty() {
    let m = basic_catalog();
    let initial: Vec<Item> = Vec::new();
    let products = solver().solve_cycles(&initial, &m, Tier::P4);
    assert!(products.is_empty());
}

#[test]
fn closure_is_idempotent_on_concrete_values() {
    let m = basic_catalog();
    let initial = vec![item("ore", Tier::R0, None)];
    let first = solver().solve_cycles(&initial, &m, Tier::P4);
    let mut widened = initial.clone();
    widened.extend(first.iter().cloned());
    let second = solver().solve_cycles(&widened, &m, Tier::P4);
    assert_eq!(sorted_ids(&first), sorted_ids(&second));
}

#[test]
fn closure_tier_monotone_on_concrete_values() {
    let m = basic_catalog();
    let initial = vec![item("ore", Tier::R0, None)];
    let low = solver().solve_cycles(&initial, &m, Tier::P1);
    let high = solver().solve_cycles(&initial, &m, Tier::P4);
    let high_ids = sorted_ids(&high);
    for id in sorted_ids(&low) {
        assert!(high_ids.contains(&id));
    }
}

#[test]
fn closure_never_contains_r0_items() {
    // A raw item with a recipe is still never a manufacturing result.
    let m = catalog(vec![
        item("ore", Tier::R0, None),
        item("gravel", Tier::R0, Some(vec![("ore", 1)])),
        item("bar", Tier::P1, Some(vec![("ore", 2)])),
    ]);
    let initial = vec![item("ore", Tier::R0, None)];
    let products = solver().solve_cycles(&initial, &m, Tier::P4);
    assert_eq!(sorted_ids(&products), vec![String::from("bar")]);
}

#[test]
fn closure_ceiling_filters_high_tiers() {
    let m = basic_catalog();
    let initial = vec![item("ore", Tier::R0, None)];
    let products = solver().solve_cycles(&initial, &m, Tier::R0);
    assert!(products.is_empty());
}

#[test]
fn closure_requires_full_recipe_satisfaction() {
    let m = catalog(vec![
        item("ore", Tier::R0, None),
        item("vapor", Tier::R0, None),
        item("mix", Tier::P1, Some(vec![("ore", 1), ("vapor", 1)])),
    ]);
    let only_ore = vec![item("ore", Tier::R0, None)];
    assert!(solver().solve_cycles(&only_ore, &m, Tier::P4).is_empty());
    let both = vec![item("ore", Tier::R0, None), item("vapor", Tier::R0, None)];
    assert_eq!(sorted_ids(&solver().solve_cycles(&both, &m, Tier::P4)), vec![String::from("mix")]);
}

#[test]
fn closure_order_independent_on_concrete_values() {
    let m = catalog(vec![
        item("ore", Tier::R0, None),
        item("vapor", Tier::R0, None),
        item("bar", Tier::P1, Some(vec![("ore", 2)])),
        item("gas", Tier::P1, Some(vec![("vapor", 1)])),
        item("mix", Tier::P2, Some(vec![("bar", 1), ("gas", 1)])),
    ]);
    let fwd = vec![item("ore", Tier::R0, None), item("vapor", Tier::R0, None)];
    let rev = vec![item("vapor", Tier::R0, None), item("ore", Tier::R0, None)];
    let a = solver().solve_cycles(&fwd, &m, Tier::P4);
    let b = solver().solve_cycles(&rev, &m, Tier::P4);
    assert_eq!(sorted_ids(&a), sorted_ids(&b));
    assert_eq!(sorted_ids(&a), vec![String::from("bar"), String::from("gas"), String::from("mix")]);
}

fn planet(label: &str, resource_ids: Vec<&str>, m: &ItemManager) -> Planet {
    let raw: Vec<(String, u32)> =
        resource_ids.into_iter().map(|id| (String::from(id), 500_000)).collect();
    Planet::from_raw(String::from(label), raw, m).expect("planet must resolve")
}

/// Two planets, A yielding bar and B yielding gas, where plate2 (P2) needs
/// bar + gas: the one 2-planet factory subset produces exactly plate2.
#[test]
fn factory_combines_two_planets() {
    let m = catalog(vec![
        item("ore", Tier::R0, None),
        item("vapor", Tier::R0, None),
        item("bar", Tier::P1, Some(vec![("ore", 2)])),
        item("gas", Tier::P1, Some(vec![("vapor", 1)])),
        item("plate2", Tier::P2, Some(vec![("bar", 1), ("gas", 1)])),
    ]);
    let planets = vec![planet("A", vec!["ore"], &m), planet("B", vec!["vapor"], &m)];
    let s = Solver::builder()
        .use_factory_planet(Some(true))
        .max_planets(Some(3))
        .production_max_tier(Some(Tier::P1))
        .factory_max_tier(Some(Tier::P2))
        .build();
    let sim = s.solve(&planets, &m);
    assert_eq!(sim.planet_solutions.len(), 2);
    assert_eq!(sorted_ids(&sim.planet_solutions[0].products), vec![String::from("bar")]);
    assert_eq!(sorted_ids(&sim.planet_solutions[1].products), vec![String::from("gas")]);
    assert_eq!(sim.factory_solutions.len(), 1);
    let fs = &sim.factory_solutions[0];
    assert_eq!(fs.planets.len(), 2);
    assert_eq!(fs.planets[0].planet.label, "A");
    assert_eq!(fs.planets[1].planet.label, "B");
    assert_eq!(sorted_ids(&fs.products), vec![String::from("plate2")]);
}

#[test]
fn factory_enumerates_all_subsets() {
    let m = basic_catalog();
    let planets = vec![
        planet("A", vec!["ore"], &m),
        planet("B", vec!["ore"], &m),
        planet("C", vec![], &m),
        planet("D", vec![], &m),
    ];
    let s = Solver::builder().max_planets(Some(3)).build();
    let sim = s.solve(&planets, &m);
    // C(4, 2) subsets of two planets each
    assert_eq!(sim.factory_solutions.len(), 6);
    for fs in &sim.factory_solutions {
        assert_eq!(fs.planets.len(), 2);
    }
}

#[test]
fn factory_with_oversized_subset_yields_nothing() {
    let m = basic_catalog();
    let planets = vec![planet("A", vec!["ore"], &m)];
    let s = Solver::builder().max_planets(Some(3)).build();
    let sim = s.solve(&planets, &m);
    // C(1, 2) == 0: no factory configuration is possible, which is not an error
    assert_eq!(sim.planet_solutions.len(), 1);
    assert_eq!(sim.factory_solutions.len(), 0);
}

#[test]
fn factory_stage_can_be_disabled() {
    let m = basic_catalog();
    let planets = vec![planet("A", vec!["ore"], &m), planet("B", vec!["ore"], &m)];
    let s = Solver::builder().use_factory_planet(Some(false)).build();
    let sim = s.solve(&planets, &m);
    assert_eq!(sim.factory_solutions.len(), 0);
    // without the factory stage the per-planet ceiling defaults to P4
    assert_eq!(
        sorted_ids(&sim.planet_solutions[0].products),
        vec![String::from("bar"), String::from("plate")]
    );
}

#[test]
fn default_production_ceiling_is_p1_with_factory_stage() {
    let m = basic_catalog();
    let planets = vec![planet("A", vec!["ore"], &m), planet("B", vec!["ore"], &m)];
    // defaults: factory stage on, 6 planets (subset size 5), production ceiling P1
    let sim = solver().solve(&planets, &m);
    assert_eq!(sorted_ids(&sim.planet_solutions[0].products), vec![String::from("bar")]);
    // C(2, 5) == 0
    assert_eq!(sim.factory_solutions.len(), 0);
}

#[test]
fn solutions_are_order_independent_over_planets() {
    let m = catalog(vec![
        item("ore", Tier::R0, None),
        item("vapor", Tier::R0, None),
        item("bar", Tier::P1, Some(vec![("ore", 2)])),
        item("gas", Tier::P1, Some(vec![("vapor", 1)])),
        item("plate2", Tier::P2, Some(vec![("bar", 1), ("gas", 1)])),
    ]);
    let ab = vec![planet("A", vec!["ore"], &m), planet("B", vec!["vapor"], &m)];
    let ba = vec![planet("B", vec!["vapor"], &m), planet("A", vec!["ore"], &m)];
    let s = Solver::builder().max_planets(Some(3)).factory_max_tier(Some(Tier::P2)).build();
    let sim_ab = s.solve(&ab, &m);
    let sim_ba = s.solve(&ba, &m);
    let mut products_ab: Vec<Vec<String>> =
        sim_ab.factory_solutions.iter().map(|fs| sorted_ids(&fs.products)).collect();
    let mut products_ba: Vec<Vec<String>> =
        sim_ba.factory_solutions.iter().map(|fs| sorted_ids(&fs.products)).collect();
    products_ab.sort();
    products_ba.sort();
    assert_eq!(products_ab, products_ba);
}

#[test]
fn catalog_rejects_missing_recipe_input() {
    let r = ItemManager::new(vec![
        item("ore", Tier::R0, None),
        item("bar", Tier::P1, Some(vec![("orez", 2)])),
    ]);
    assert!(matches!(r, Err(Error::MissingItem(id)) if id == "orez"));
}

#[test]
fn catalog_lookup() {
    let m = basic_catalog();
    let bar = m.get(&String::from("bar")).expect("bar exists");
    assert_eq!(bar.id, "bar");
    assert!(matches!(bar.tier, Tier::P1));
    assert_eq!(bar.production.as_ref().unwrap().inputs.len(), 1);
    assert_eq!(bar.production.as_ref().unwrap().inputs[0].item_id, "ore");
    assert_eq!(bar.production.as_ref().unwrap().inputs[0].amount, 2);
    assert!(m.get(&String::from("unknown")).is_none());
}

#[test]
fn reverse_index_finds_consumers() {
    let m = basic_catalog();
    let ore = m.get(&String::from("ore")).unwrap();
    let consumers = m.get_products(&ore).expect("ore is consumed");
    assert_eq!(sorted_ids(&consumers), vec![String::from("bar")]);
    let plate = m.get(&String::from("plate")).unwrap();
    assert!(m.get_products(&plate).is_none());
}

#[test]
fn recipe_firing_needs_every_input() {
    let m = catalog(vec![
        item("ore", Tier::R0, None),
        item("vapor", Tier::R0, None),
        item("mix", Tier::P1, Some(vec![("ore", 1), ("vapor", 1)])),
    ]);
    let mix = m.get(&String::from("mix")).unwrap();
    let recipe = mix.production.as_ref().unwrap();
    let only_ore = vec![item("ore", Tier::R0, None)];
    assert!(!recipe.can_be_made_using(&only_ore));
    let both = vec![item("ore", Tier::R0, None), item("vapor", Tier::R0, None)];
    assert!(recipe.can_be_made_using(&both));
}

#[test]
fn item_from_raw_resolves_or_fails() {
    let m = basic_catalog();
    let good = item("ingot", Tier::P1, Some(vec![("ore", 3)]));
    let resolved = Item::from_raw(&m, &good).expect("inputs resolve");
    assert_eq!(resolved.id, "ingot");
    let bad = item("ingot", Tier::P1, Some(vec![("missing", 3)]));
    let r = Item::from_raw(&m, &bad);
    assert!(matches!(r, Err(Error::MissingItem(id)) if id == "missing"));
}

#[test]
fn production_from_raw_fails_on_missing_input() {
    let m = basic_catalog();
    let raw = Production {
        quantity: 4,
        inputs: vec![Input { item_id: String::from("nope"), amount: 1 }],
    };
    let r = Production::from_raw(&m, &raw);
    assert!(matches!(r, Err(Error::MissingItem(id)) if id == "nope"));
}

#[test]
fn planet_rejects_unknown_resource() {
    let m = basic_catalog();
    let r = Planet::from_raw(String::from("X"), vec![(String::from("lava"), 10)], &m);
    assert!(matches!(r, Err(Error::MissingItem(id)) if id == "lava"));
}

#[test]
fn planet_collects_its_resource_items() {
    let m = basic_catalog();
    let p = planet("A", vec!["ore"], &m);
    let collected = p.collect_resources();
    assert_eq!(sorted_ids(&collected), vec![String::from("ore")]);
}

#[test]
fn system_resolves_planets() {
    let m = basic_catalog();
    let r = System::new(
        String::from("Sol"),
        vec![
            (String::from("A"), vec![(String::from("ore"), 350_000)]),
            (String::from("B"), vec![]),
        ],
        &m,
    );
    let sys = r.expect("system resolves");
    assert_eq!(sys.label, "Sol");
    assert_eq!(sys.planets.len(), 2);
    assert_eq!(sys.planets[0].label, "A");
    assert_eq!(sys.planets[0].resources.len(), 1);
    assert_eq!(sys.planets[0].resources[0].item.id, "ore");
    assert_eq!(sys.planets[0].resources[0].item.label, "ore");
    assert!(matches!(sys.planets[0].resources[0].item.tier, Tier::R0));
    assert_eq!(sys.planets[0].resources[0].density_ppm, 350_000);
    assert_eq!(sys.planets[1].resources.len(), 0);
    let bad = System::new(
        String::from("Sol"),
        vec![(String::from("A"), vec![(String::from("lava"), 1)])],
        &m,
    );
    assert!(matches!(bad, Err(Error::MissingItem(id)) if id == "lava"));
}

#[test]
fn missing_item_error_carries_the_id() {
    let e = Error::create_missing_item(String::from("widget"));
    assert!(matches!(e, Error::MissingItem(id) if id == "widget"));
}

#[test]
fn tier_order_is_total() {
    assert!(Tier::R0.lt(Tier::P1));
    assert!(Tier::P1.lt(Tier::P2));
    assert!(Tier::P2.lt(Tier::P3));
    assert!(Tier::P3.lt(Tier::P4));
    assert!(Tier::P2.le(Tier::P2));
    assert!(!Tier::P4.le(Tier::P3));
    assert_eq!(Tier::P3.level(), 3);
}
