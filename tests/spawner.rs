use bracket_lib::random::RandomNumberGenerator;
use dungeoncrawl::map::Point;
use dungeoncrawl::monsters::{monster_for_roll, random_monster};
use dungeoncrawl::template::{
    build_pool, pool_fits, validate_catalog, Effect, EntityType, SpawnError, Spawner, Template, TemplateSpawner,
};
use std::collections::HashSet;

fn potion() -> Template {
    Template {
        entity_type: EntityType::Item,
        levels: HashSet::from([0, 1, 2]),
        frequency: 5,
        name: String::from("Test Potion"),
        glyph: '/',
        provides: Some(Vec::<(String, i32)>::from([(String::from("ProvidesHealing"), 5)])),
        hp: None,
        base_damage: None,
    }
}

fn simple(entity_type: EntityType, levels: &[usize], frequency: i32, name: &str, hp: Option<i32>) -> Template {
    Template {
        entity_type,
        levels: levels.iter().copied().collect(),
        frequency,
        name: String::from(name),
        glyph: 'g',
        provides: None,
        hp,
        base_damage: None,
    }
}

#[test]
fn should_spawn_the_correct_entities() {
    let entities: Vec<Template> = vec![potion(), potion(), potion()];
    let templates = TemplateSpawner::new(entities, Spawner::default());
    let mut rng = RandomNumberGenerator::new();
    let points = vec![Point::new(1, 1), Point::new(2, 2), Point::new(3, 3)];
    let spawned = templates.spawn_entities(&mut rng, 0, &points).unwrap();
    assert_eq!(spawned.len(), 3);
    for (b, p) in spawned.iter().zip(points.iter()) {
        assert_eq!(b.position, *p);
        assert_eq!(b.name, "Test Potion");
        assert_eq!(b.entity_type, EntityType::Item);
        assert_eq!(b.unknown_effects, vec![String::from("ProvidesHealing")]);
        assert!(b.effects.is_empty());
    }
}

#[test]
fn weighted_pool_draws_in_proportion() {
    let entities = vec![
        simple(EntityType::Item, &[0], 5, "Common", None),
        simple(EntityType::Item, &[0], 1, "Rare", None),
    ];
    let spawner = TemplateSpawner::new(entities, Spawner::default());
    let mut rng = RandomNumberGenerator::seeded(2024);
    let points: Vec<Point> = (0..600).map(|i| Point::new(i % 80, i / 80)).collect();
    let spawned = spawner.spawn_entities(&mut rng, 0, &points).unwrap();
    assert_eq!(spawned.len(), 600);
    let common = spawned.iter().filter(|b| b.name == "Common").count() as f64;
    let share = common / 600.0;
    assert!((share - 5.0 / 6.0).abs() <= 0.05, "share {}", share);
}

#[test]
fn enemy_without_hit_points_fails_the_pass() {
    let entities = vec![
        simple(EntityType::Item, &[0], 1, "Potion", None),
        simple(EntityType::Enemy, &[0], 1, "Ghost", None),
    ];
    let spawner = TemplateSpawner::new(entities, Spawner::default());
    let mut rng = RandomNumberGenerator::seeded(1);
    let r = spawner.spawn_entities(&mut rng, 0, &vec![Point::new(1, 1)]);
    assert_eq!(r.unwrap_err(), SpawnError::MissingHitPoints);
    let r = spawner.spawn_entities(&mut rng, 3, &vec![Point::new(1, 1)]);
    assert!(r.unwrap().is_empty());
}

#[test]
fn level_two_template_never_in_level_one_pass() {
    let entities = vec![
        simple(EntityType::Enemy, &[2], 10, "Ogre", Some(5)),
        simple(EntityType::Enemy, &[1, 2], 1, "Goblin", Some(1)),
    ];
    assert_eq!(build_pool(&entities, 1), vec![1]);
    let spawner = TemplateSpawner::new(entities, Spawner::default());
    let mut rng = RandomNumberGenerator::seeded(9);
    let points: Vec<Point> = (0..50).map(|i| Point::new(i, 1)).collect();
    let spawned = spawner.spawn_entities(&mut rng, 1, &points).unwrap();
    assert_eq!(spawned.len(), 50);
    assert!(spawned.iter().all(|b| b.name == "Goblin"));
}

#[test]
fn pool_repeats_by_frequency_in_order() {
    let entities = vec![
        simple(EntityType::Item, &[0], 2, "A", None),
        simple(EntityType::Item, &[0], 0, "B", None),
        simple(EntityType::Item, &[1], 4, "C", None),
        simple(EntityType::Item, &[0, 1], 3, "D", None),
    ];
    assert_eq!(build_pool(&entities, 0), vec![0, 0, 3, 3, 3]);
    assert_eq!(build_pool(&entities, 1), vec![2, 2, 2, 2, 3, 3, 3]);
    assert!(build_pool(&entities, 7).is_empty());
}

#[test]
fn empty_pool_spawns_nothing() {
    let entities = vec![simple(EntityType::Item, &[0], 0, "Never", None)];
    let spawner = TemplateSpawner::new(entities, Spawner::default());
    let mut rng = RandomNumberGenerator::seeded(3);
    let spawned = spawner.spawn_entities(&mut rng, 0, &vec![Point::new(1, 1), Point::new(2, 2)]).unwrap();
    assert!(spawned.is_empty());
}

#[test]
fn enemy_gets_enemy_parts() {
    let t = Template {
        entity_type: EntityType::Enemy,
        levels: HashSet::from([0]),
        frequency: 1,
        name: String::from("Orc"),
        glyph: 'o',
        provides: None,
        hp: Some(4),
        base_damage: Some(2),
    };
    let b = Spawner::default().spawn_entity(&Point::new(5, 6), &t).unwrap();
    assert_eq!(b.position, Point::new(5, 6));
    assert_eq!(b.glyph, 111);
    assert_eq!(b.name, "Orc");
    assert_eq!(b.health, Some(4));
    assert_eq!(b.fov_radius, Some(6));
    assert!(b.chases_player);
    assert_eq!(b.damage, Some(2));
    assert!(!b.weapon);
}

#[test]
fn item_with_damage_is_a_weapon_and_effects_attach() {
    let t = Template {
        entity_type: EntityType::Item,
        levels: HashSet::from([0]),
        frequency: 1,
        name: String::from("Magic Sword"),
        glyph: '/',
        provides: Some(vec![
            (String::from("Healing"), 6),
            (String::from("Juggling"), 1),
            (String::from("MagicMap"), 0),
        ]),
        hp: None,
        base_damage: Some(3),
    };
    let b = Spawner::default().spawn_entity(&Point::new(1, 2), &t).unwrap();
    assert_eq!(b.glyph, 47);
    assert_eq!(b.health, None);
    assert_eq!(b.fov_radius, None);
    assert!(!b.chases_player);
    assert_eq!(b.effects, vec![Effect::Healing(6), Effect::MagicMap]);
    assert_eq!(b.unknown_effects, vec![String::from("Juggling")]);
    assert_eq!(b.damage, Some(3));
    assert!(b.weapon);
}

#[test]
fn spawn_entity_rejects_enemy_without_hit_points() {
    let t = simple(EntityType::Enemy, &[0], 1, "Wisp", None);
    let r = Spawner::default().spawn_entity(&Point::new(1, 1), &t);
    assert_eq!(r.unwrap_err(), SpawnError::MissingHitPoints);
}

#[test]
fn catalog_validation_requires_enemy_hit_points() {
    let good = vec![simple(EntityType::Enemy, &[0], 1, "Bat", Some(1)), simple(EntityType::Item, &[0], 1, "Key", None)];
    assert_eq!(validate_catalog(&good), Ok(()));
    let bad = vec![simple(EntityType::Item, &[0], 1, "Key", None), simple(EntityType::Enemy, &[5], 1, "Bat", None)];
    assert_eq!(validate_catalog(&bad), Err(SpawnError::MissingHitPoints));
}

#[test]
fn dice_pick_goblins_and_orcs() {
    assert_eq!(monster_for_roll(1), (1, String::from("Goblin"), 103));
    assert_eq!(monster_for_roll(8), (1, String::from("Goblin"), 103));
    assert_eq!(monster_for_roll(9), (2, String::from("Orc"), 111));
    assert_eq!(monster_for_roll(10), (2, String::from("Orc"), 111));
    let mut rng = RandomNumberGenerator::seeded(11);
    for _ in 0..30 {
        let (hp, name, _) = random_monster(&mut rng);
        assert!((hp == 1 && name == "Goblin") || (hp == 2 && name == "Orc"));
    }
}

#[test]
fn oversized_pool_is_refused() {
    let entities = vec![
        simple(EntityType::Item, &[0], i32::MAX, "Sand", None),
        simple(EntityType::Item, &[0], 1, "Pebble", None),
    ];
    assert!(!pool_fits(&entities, 0));
    assert!(pool_fits(&entities, 1));
    let spawner = TemplateSpawner::new(entities, Spawner::default());
    let mut rng = RandomNumberGenerator::seeded(4);
    let r = spawner.spawn_entities(&mut rng, 0, &vec![Point::new(1, 1)]);
    assert_eq!(r.unwrap_err(), SpawnError::PoolTooLarge);
    let small = vec![simple(EntityType::Item, &[0], i32::MAX - 1, "Dust", None)];
    assert!(pool_fits(&small, 0));
}
