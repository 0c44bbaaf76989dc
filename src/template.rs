use vstd::prelude::*;
use std::collections::HashSet;
use bracket_lib::random::RandomNumberGenerator;
use crate::map::Point;
use crate::rng::{cp437_of, glyph_of, rng_slice_entry};

verus! {

broadcast use vstd::std_specs::hash::group_hash_axioms;

/// The sight radius of a spawned enemy.
pub const ENEMY_FOV_RADIUS: i32 = 6;

#[derive(Clone, Copy, Debug, PartialEq, Eq, Structural)]
pub enum EntityType {
    Enemy,
    Item,
}

/// A declarative archetype of an entity, as the catalog lists it.
#[derive(Debug)]
pub struct Template {
    pub entity_type: EntityType,
    pub levels: HashSet<usize>,
    pub frequency: i32,
    pub name: String,
    pub glyph: char,
    pub provides: Option<Vec<(String, i32)>>,
    pub hp: Option<i32>,
    pub base_damage: Option<i32>,
}

/// A fatal fault in the catalog's data.
#[derive(Clone, Copy, Debug, PartialEq, Eq, Structural)]
pub enum SpawnError {
    /// An Enemy template gives no hit points.
    MissingHitPoints,
    /// The level's pool holds `i32::MAX` entries or more, more than one draw can pick from.
    PoolTooLarge,
}

/// An effect that an entity grants.
#[derive(Clone, Copy, Debug, PartialEq, Eq, Structural)]
pub enum Effect {
    Healing(i32),
    MagicMap,
}

/// The components of one entity to be created.
#[derive(Debug)]
pub struct EntityBlueprint {
    pub position: Point,
    pub glyph: u16,
    pub name: String,
    pub entity_type: EntityType,
    pub health: Option<i32>,
    pub fov_radius: Option<i32>,
    pub chases_player: bool,
    pub effects: Vec<Effect>,
    pub unknown_effects: Vec<String>,
    pub damage: Option<i32>,
    pub weapon: bool,
}

/// The template takes part in spawning on this level.
pub open spec fn eligible(t: Template, level: usize) -> bool {
    t.levels@.contains(level)
}

/// How many times a template stands in the pool.
pub open spec fn copies(t: Template) -> nat {
    if t.frequency > 0 {
        t.frequency as nat
    } else {
        0
    }
}

/// The pool of a level: the index of each eligible template, repeated as often
/// as its frequency, in catalog order.
pub open spec fn pool_spec(ts: Seq<Template>, level: usize) -> Seq<usize>
    decreases ts.len(),
{
    if ts.len() == 0 {
        Seq::empty()
    } else {
        let last = (ts.len() - 1) as usize;
        pool_spec(ts.drop_last(), level) + if eligible(ts.last(), level) {
            Seq::new(copies(ts.last()), |k: int| last)
        } else {
            Seq::empty()
        }
    }
}

/// The pass must fail: an eligible Enemy template lacks hit points.
pub open spec fn lacks_hit_points(ts: Seq<Template>, level: usize) -> bool {
    exists|j: int|
        0 <= j < ts.len() && eligible(#[trigger] ts[j], level) && ts[j].entity_type == EntityType::Enemy
            && ts[j].hp.is_none()
}

/// The effect that a declared name grants, if the name is known.
pub open spec fn effect_spec(name: Seq<char>, amount: i32) -> Option<Effect> {
    if name == "Healing"@ {
        Some(Effect::Healing(amount))
    } else if name == "MagicMap"@ {
        Some(Effect::MagicMap)
    } else {
        None
    }
}

/// The effects granted by a list of declarations, in order, skipping unknown names.
pub open spec fn effects_spec(p: Seq<(String, i32)>) -> Seq<Effect>
    decreases p.len(),
{
    if p.len() == 0 {
        Seq::empty()
    } else {
        let prev = effects_spec(p.drop_last());
        match effect_spec(p.last().0@, p.last().1) {
            Some(e) => prev.push(e),
            None => prev,
        }
    }
}

/// The names in a list of declarations that grant nothing, in order.
pub open spec fn unknown_spec(p: Seq<(String, i32)>) -> Seq<Seq<char>>
    decreases p.len(),
{
    if p.len() == 0 {
        Seq::empty()
    } else {
        let prev = unknown_spec(p.drop_last());
        match effect_spec(p.last().0@, p.last().1) {
            Some(e) => prev,
            None => prev.push(p.last().0@),
        }
    }
}

pub open spec fn provides_spec(t: Template) -> Seq<(String, i32)> {
    match t.provides {
        Some(v) => v@,
        None => Seq::empty(),
    }
}

pub open spec fn names_view(v: Seq<String>) -> Seq<Seq<char>> {
    v.map_values(|s: String| s@)
}

/// `b` is the entity that template `t` gives at `pt`.
pub open spec fn materialized(b: EntityBlueprint, pt: Point, t: Template) -> bool {
    &&& b.position == pt
    &&& b.glyph == cp437_of(t.glyph)
    &&& b.name@ == t.name@
    &&& b.entity_type == t.entity_type
    &&& t.entity_type == EntityType::Enemy ==> {
        &&& b.health == t.hp
        &&& b.fov_radius == Some(ENEMY_FOV_RADIUS)
        &&& b.chases_player
    }
    &&& t.entity_type == EntityType::Item ==> {
        &&& b.health.is_none()
        &&& b.fov_radius.is_none()
        &&& !b.chases_player
    }
    &&& b.effects@ == effects_spec(provides_spec(t))
    &&& names_view(b.unknown_effects@) == unknown_spec(provides_spec(t))
    &&& b.damage == t.base_damage
    &&& b.weapon == (t.base_damage.is_some() && t.entity_type == EntityType::Item)
}

/// `b` is what some template of the level's pool gives at `pt`.
pub open spec fn drawn_from_pool(b: EntityBlueprint, pt: Point, ts: Seq<Template>, level: usize) -> bool {
    exists|j: usize| pool_spec(ts, level).contains(j) && #[trigger] materialized(b, pt, ts[j as int])
}

/// Whether two strings hold the same characters.
pub fn str_equals(a: &str, b: &str) -> (r: bool)
    ensures
        r == (a@ == b@),
{
    let n = a.unicode_len();
    if n != b.unicode_len() {
        return false;
    }
    let mut i: usize = 0;
    while i < n
        invariant
            n == a@.len(),
            n == b@.len(),
            i <= n,
            forall|k: int| 0 <= k < i ==> a@[k] == b@[k],
        decreases n - i,
    {
        if a.get_char(i) != b.get_char(i) {
            return false;
        }
        i = i + 1;
    }
    assert(a@ =~= b@);
    true
}

/// The effect that a declared name grants, `None` for an unknown name.
pub fn effect_named(name: &String, amount: i32) -> (r: Option<Effect>)
    ensures
        r == effect_spec(name@, amount),
{
    if str_equals(name.as_str(), "Healing") {
        Some(Effect::Healing(amount))
    } else if str_equals(name.as_str(), "MagicMap") {
        Some(Effect::MagicMap)
    } else {
        None
    }
}

/// Checks the rule that every Enemy template gives hit points.
pub fn validate_catalog(templates: &Vec<Template>) -> (r: Result<(), SpawnError>)
    ensures
        r.is_ok() <==> forall|j: int|
            0 <= j < templates@.len() && (#[trigger] templates@[j]).entity_type == EntityType::Enemy
                ==> templates@[j].hp.is_some(),
        r.is_err() ==> r == Err::<(), SpawnError>(SpawnError::MissingHitPoints),
{
    let mut i: usize = 0;
    while i < templates.len()
        invariant
            i <= templates@.len(),
            forall|j: int|
                0 <= j < i && (#[trigger] templates@[j]).entity_type == EntityType::Enemy ==> templates@[j].hp.is_some(),
        decreases templates@.len() - i,
    {
        if templates[i].entity_type == EntityType::Enemy && templates[i].hp.is_none() {
            return Err(SpawnError::MissingHitPoints);
        }
        i = i + 1;
    }
    Ok(())
}

/// Builds the pool of a level: each eligible template's index, repeated as
/// often as its frequency, in catalog order.
pub fn build_pool(templates: &Vec<Template>, level: usize) -> (pool: Vec<usize>)
    requires
        pool_spec(templates@, level).len() <= usize::MAX,
    ensures
        pool@ == pool_spec(templates@, level),
{
    let mut pool: Vec<usize> = Vec::new();
    let mut i: usize = 0;
    while i < templates.len()
        invariant
            i <= templates@.len(),
            pool_spec(templates@, level).len() <= usize::MAX,
            pool@ == pool_spec(templates@.subrange(0, i as int), level),
        decreases templates@.len() - i,
    {
        let ghost sub = templates@.subrange(0, i + 1);
        assert(sub.drop_last() =~= templates@.subrange(0, i as int));
        assert(sub.last() == templates@[i as int]);
        proof {
            lemma_pool_prefix_len(templates@, level, i + 1);
        }
        let t = &templates[i];
        if t.levels.contains(&level) {
            let mut c: i32 = 0;
            let ghost base = pool@;
            while c < t.frequency
                invariant
                    0 <= c,
                    c <= t.frequency || c == 0,
                    base == pool_spec(templates@.subrange(0, i as int), level),
                    pool@ == base + Seq::new(c as nat, |k: int| i),
                    pool_spec(sub, level).len() <= usize::MAX,
                    pool_spec(sub, level) == base + Seq::new(copies(*t), |k: int| i),
                decreases t.frequency - c,
            {
                assert(pool@.len() < pool_spec(sub, level).len());
                pool.push(i);
                assert(pool@ =~= base + Seq::new((c + 1) as nat, |k: int| i));
                c = c + 1;
            }
            assert(pool@ =~= pool_spec(sub, level));
        } else {
            assert(pool_spec(sub, level) =~= pool@);
        }
        i = i + 1;
    }
    assert(templates@.subrange(0, templates@.len() as int) =~= templates@);
    pool
}

/// Whether the level's pool holds fewer than `i32::MAX` entries, the most that
/// one draw can pick from.
pub fn pool_fits(templates: &Vec<Template>, level: usize) -> (r: bool)
    ensures
        r == (pool_spec(templates@, level).len() < i32::MAX),
{
    let mut total: u64 = 0;
    let mut i: usize = 0;
    while i < templates.len()
        invariant
            i <= templates@.len(),
            total == pool_spec(templates@.subrange(0, i as int), level).len(),
            total < i32::MAX,
        decreases templates@.len() - i,
    {
        let ghost sub = templates@.subrange(0, i + 1);
        assert(sub.drop_last() =~= templates@.subrange(0, i as int));
        assert(sub.last() == templates@[i as int]);
        let t = &templates[i];
        if t.levels.contains(&level) && t.frequency > 0 {
            total = total + t.frequency as u64;
        }
        assert(total == pool_spec(sub, level).len());
        if total >= i32::MAX as u64 {
            proof {
                lemma_pool_prefix_len(templates@, level, i + 1);
            }
            return false;
        }
        i = i + 1;
    }
    assert(templates@.subrange(0, templates@.len() as int) =~= templates@);
    true
}

/// A pool of a prefix of the catalog is no longer than the whole pool.
proof fn lemma_pool_prefix_len(ts: Seq<Template>, level: usize, n: int)
    requires
        0 <= n <= ts.len(),
    ensures
        pool_spec(ts.subrange(0, n), level).len() <= pool_spec(ts, level).len(),
    decreases ts.len(),
{
    if n < ts.len() {
        assert(ts.drop_last().subrange(0, n) =~= ts.subrange(0, n));
        lemma_pool_prefix_len(ts.drop_last(), level, n);
    } else {
        assert(ts.subrange(0, n) =~= ts);
    }
}

/// Every pool entry is the index of a template that is eligible for the level
/// and has a positive frequency.
pub proof fn lemma_pool_only_eligible(ts: Seq<Template>, level: usize, k: int)
    requires
        0 <= k < pool_spec(ts, level).len(),
        ts.len() <= usize::MAX,
    ensures
        pool_spec(ts, level)[k] < ts.len(),
        eligible(ts[pool_spec(ts, level)[k] as int], level),
        ts[pool_spec(ts, level)[k] as int].frequency > 0,
    decreases ts.len(),
{
    let prev = pool_spec(ts.drop_last(), level);
    let last = (ts.len() - 1) as usize;
    if k < prev.len() {
        lemma_pool_only_eligible(ts.drop_last(), level, k);
        assert(pool_spec(ts, level)[k] == prev[k]);
        assert(ts.drop_last()[prev[k] as int] == ts[prev[k] as int]);
    } else {
        if eligible(ts.last(), level) {
            assert(pool_spec(ts, level)[k] == last);
        } else {
            assert(pool_spec(ts, level) =~= prev);
        }
    }
}

/// The spawner that materializes templates.
#[derive(Clone, Copy, Debug, Default)]
pub struct Spawner {}

impl Spawner {
    /// The entity that a template gives at a point: position, glyph and name;
    /// enemy parts for an Enemy, item parts for an Item; the known effects it
    /// declares; damage, and the weapon mark for an Item with damage. Fails
    /// when an Enemy template gives no hit points.
    pub fn spawn_entity(&self, pt: &Point, template: &Template) -> (r: Result<EntityBlueprint, SpawnError>)
        ensures
            r.is_err() <==> (template.entity_type == EntityType::Enemy && template.hp.is_none()),
            r.is_err() ==> r.unwrap_err() == SpawnError::MissingHitPoints,
            r.is_ok() ==> materialized(r.unwrap(), *pt, *template),
    {
        let (health, fov_radius, chases_player) = match template.entity_type {
            EntityType::Enemy => {
                match template.hp {
                    Some(hp) => (Some(hp), Some(ENEMY_FOV_RADIUS), true),
                    None => {
                        return Err(SpawnError::MissingHitPoints);
                    },
                }
            },
            EntityType::Item => (None, None, false),
        };
        let mut effects: Vec<Effect> = Vec::new();
        let mut unknown_effects: Vec<String> = Vec::new();
        match &template.provides {
            Some(list) => {
                let mut i: usize = 0;
                while i < list.len()
                    invariant
                        i <= list@.len(),
                        effects@ == effects_spec(list@.subrange(0, i as int)),
                        names_view(unknown_effects@) == unknown_spec(list@.subrange(0, i as int)),
                    decreases list@.len() - i,
                {
                    let ghost sub = list@.subrange(0, i + 1);
                    assert(sub.drop_last() =~= list@.subrange(0, i as int));
                    let (name, amount) = &list[i];
                    match effect_named(name, *amount) {
                        Some(e) => effects.push(e),
                        None => {
                            unknown_effects.push(name.clone());
                            assert(names_view(unknown_effects@) =~= unknown_spec(sub));
                        },
                    }
                    i = i + 1;
                }
                assert(list@.subrange(0, list@.len() as int) =~= list@);
            },
            None => {
                assert(names_view(unknown_effects@) =~= Seq::empty());
            },
        }
        let weapon = template.base_damage.is_some() && template.entity_type == EntityType::Item;
        Ok(
            EntityBlueprint {
                position: *pt,
                glyph: glyph_of(template.glyph),
                name: template.name.clone(),
                entity_type: template.entity_type,
                health,
                fov_radius,
                chases_player,
                effects,
                unknown_effects,
                damage: template.base_damage,
                weapon,
            },
        )
    }
}

/// A catalog of templates and the spawner that materializes them.
pub struct TemplateSpawner {
    pub entities: Vec<Template>,
    pub spawner: Spawner,
}

impl TemplateSpawner {
    pub fn new(entities: Vec<Template>, spawner: Spawner) -> (r: TemplateSpawner)
        ensures
            r.entities == entities,
    {
        TemplateSpawner { entities, spawner }
    }

    /// One spawning pass: fails on an eligible Enemy template without hit points;
    /// else, for each spawn point in order, draws one entry of the level's pool
    /// and materializes it there. An empty pool yields no entity at all.
    pub fn spawn_entities(&self, rng: &mut RandomNumberGenerator, level: usize, spawn_points: &Vec<Point>) -> (r: Result<
        Vec<EntityBlueprint>,
        SpawnError,
    >)
        ensures
            r.is_err() <==> (lacks_hit_points(self.entities@, level) || pool_spec(self.entities@, level).len()
                >= i32::MAX),
            lacks_hit_points(self.entities@, level) ==> r.is_err() && r.unwrap_err() == SpawnError::MissingHitPoints,
            !lacks_hit_points(self.entities@, level) && r.is_err() ==> r.unwrap_err() == SpawnError::PoolTooLarge,
            r.is_ok() && pool_spec(self.entities@, level).len() == 0 ==> r.unwrap()@.len() == 0,
            r.is_ok() && pool_spec(self.entities@, level).len() > 0 ==> {
                &&& r.unwrap()@.len() == spawn_points@.len()
                &&& forall|k: int|
                    0 <= k < spawn_points@.len() ==> #[trigger] drawn_from_pool(
                        r.unwrap()@[k],
                        spawn_points@[k],
                        self.entities@,
                        level,
                    )
            },
    {
        let mut i: usize = 0;
        while i < self.entities.len()
            invariant
                i <= self.entities@.len(),
                forall|j: int|
                    0 <= j < i && eligible(#[trigger] self.entities@[j], level) ==> !(self.entities@[j].entity_type
                        == EntityType::Enemy && self.entities@[j].hp.is_none()),
            decreases self.entities@.len() - i,
        {
            let t = &self.entities[i];
            if t.levels.contains(&level) && t.entity_type == EntityType::Enemy && t.hp.is_none() {
                assert(eligible(self.entities@[i as int], level));
                return Err(SpawnError::MissingHitPoints);
            }
            i = i + 1;
        }
        if !pool_fits(&self.entities, level) {
            return Err(SpawnError::PoolTooLarge);
        }
        let pool = build_pool(&self.entities, level);
        let n_templates = self.entities.len();
        let mut out: Vec<EntityBlueprint> = Vec::new();
        if pool.len() == 0 {
            return Ok(out);
        }
        let mut k: usize = 0;
        while k < spawn_points.len()
            invariant
                k <= spawn_points@.len(),
                out@.len() == k,
                pool@ == pool_spec(self.entities@, level),
                pool@.len() > 0,
                pool@.len() < i32::MAX,
                n_templates == self.entities@.len(),
                !lacks_hit_points(self.entities@, level),
                forall|m: int|
                    0 <= m < k ==> #[trigger] drawn_from_pool(out@[m], spawn_points@[m], self.entities@, level),
            decreases spawn_points@.len() - k,
        {
            match rng_slice_entry(rng, &pool) {
                Some(j) => {
                    let ghost pos = choose|q: int| 0 <= q < pool@.len() && pool@[q] == j;
                    proof {
                        lemma_pool_only_eligible(self.entities@, level, pos);
                    }
                    let t = &self.entities[j];
                    match self.spawner.spawn_entity(&spawn_points[k], t) {
                        Ok(b) => {
                            out.push(b);
                            assert(materialized(out@[k as int], spawn_points@[k as int], self.entities@[j as int]));
                            assert(drawn_from_pool(out@[k as int], spawn_points@[k as int], self.entities@, level));
                            assert forall|m: int| 0 <= m < k + 1 implies #[trigger] drawn_from_pool(
                                out@[m],
                                spawn_points@[m],
                                self.entities@,
                                level,
                            ) by {
                                if m < k {
                                    assert(out@[m] == out@.drop_last()[m]);
                                }
                            }
                        },
                        Err(_) => {
                            assert(eligible(self.entities@[j as int], level));
                            return Err(SpawnError::MissingHitPoints);
                        },
                    }
                },
                None => {
                    return Ok(out);
                },
            }
            k = k + 1;
        }
        Ok(out)
    }
}

/// A template that is not eligible for a level never stands in that level's pool.
pub proof fn lemma_ineligible_never_pooled(ts: Seq<Template>, level: usize, j: int)
    requires
        0 <= j < ts.len() <= usize::MAX,
        !eligible(ts[j], level),
    ensures
        !pool_spec(ts, level).contains(j as usize),
{
    if pool_spec(ts, level).contains(j as usize) {
        let k = choose|k: int| 0 <= k < pool_spec(ts, level).len() && pool_spec(ts, level)[k] == j as usize;
        lemma_pool_only_eligible(ts, level, k);
    }
}

/// How many times `v` stands in `s`.
pub open spec fn occurrences(s: Seq<usize>, v: usize) -> nat
    decreases s.len(),
{
    if s.len() == 0 {
        0
    } else {
        occurrences(s.drop_last(), v) + if s.last() == v { 1nat } else { 0nat }
    }
}

proof fn lemma_occurrences_concat(a: Seq<usize>, b: Seq<usize>, v: usize)
    ensures
        occurrences(a + b, v) == occurrences(a, v) + occurrences(b, v),
    decreases b.len(),
{
    if b.len() > 0 {
        assert((a + b).drop_last() =~= a + b.drop_last());
        lemma_occurrences_concat(a, b.drop_last(), v);
    } else {
        assert(a + b =~= a);
    }
}

proof fn lemma_occurrences_repeat(n: nat, w: usize, v: usize)
    ensures
        occurrences(Seq::new(n, |k: int| w), v) == if w == v { n } else { 0 },
    decreases n,
{
    if n > 0 {
        assert(Seq::new(n, |k: int| w).drop_last() =~= Seq::new((n - 1) as nat, |k: int| w));
        lemma_occurrences_repeat((n - 1) as nat, w, v);
    }
}

/// Frequency weighting: in a level's pool each template stands exactly as many
/// times as its frequency when it is eligible, and never otherwise, so one
/// uniform draw from the pool picks it with chance proportional to its frequency.
pub proof fn lemma_pool_weights(ts: Seq<Template>, level: usize, j: int)
    requires
        0 <= j < ts.len() <= usize::MAX,
    ensures
        occurrences(pool_spec(ts, level), j as usize) == if eligible(ts[j], level) { copies(ts[j]) } else { 0 },
    decreases ts.len(),
{
    let last = (ts.len() - 1) as usize;
    let prev = ts.drop_last();
    let block = if eligible(ts.last(), level) {
        Seq::new(copies(ts.last()), |k: int| last)
    } else {
        Seq::<usize>::empty()
    };
    lemma_occurrences_concat(pool_spec(prev, level), block, j as usize);
    if eligible(ts.last(), level) {
        lemma_occurrences_repeat(copies(ts.last()), last, j as usize);
    }
    if j < ts.len() - 1 {
        lemma_pool_weights(prev, level, j);
        assert(prev[j] == ts[j]);
    } else {
        lemma_occurrences_absent(prev, level, j as usize);
    }
}

/// A pool never holds an index past the end of its catalog.
proof fn lemma_occurrences_absent(ts: Seq<Template>, level: usize, v: usize)
    requires
        v >= ts.len(),
        ts.len() <= usize::MAX,
    ensures
        occurrences(pool_spec(ts, level), v) == 0,
    decreases ts.len(),
{
    if ts.len() > 0 {
        let last = (ts.len() - 1) as usize;
        let block = if eligible(ts.last(), level) {
            Seq::new(copies(ts.last()), |k: int| last)
        } else {
            Seq::<usize>::empty()
        };
        lemma_occurrences_concat(pool_spec(ts.drop_last(), level), block, v);
        lemma_occurrences_absent(ts.drop_last(), level, v);
        if eligible(ts.last(), level) {
            lemma_occurrences_repeat(copies(ts.last()), last, v);
        }
    }
}

} // verus!
