use genecs::component::{join2, Component, ComponentStorage, ComponentTable};
use genecs::entity::{Entity, EntityRegister};
use genecs::system::{dispatch, Permisions, System};

#[derive(Clone, Copy)]
struct CompA(usize);

#[derive(Clone, Copy)]
struct CompB(f64);

#[derive(Clone, Copy)]
struct CompC(bool);

#[derive(Clone, Copy)]
struct CompD(f64);

impl Component<ComponentTable<CompA>> for CompA {}

impl Component<ComponentTable<CompB>> for CompB {}

impl Component<ComponentTable<CompC>> for CompC {}

impl Component<ComponentTable<CompD>> for CompD {}

struct World {
    register: EntityRegister,
    a: ComponentTable<CompA>,
    b: ComponentTable<CompB>,
    c: ComponentTable<CompC>,
    d: ComponentTable<CompD>,
}

enum TestSystem {
    /// Creates four entities with various component combinations.
    InitializeEntities,
    /// Adds a value to every entity's CompA.
    AddUsize(usize),
    /// Gives every entity with CompA and CompB a CompD holding their sum.
    AddCompDIfCompAAndCompB,
    /// Multiplies CompD where the entity's CompC is set.
    MultiplyCompDIfCompC(f64),
}

impl System<World> for TestSystem {
    fn signature(&self) -> Vec<(usize, Permisions)> {
        Vec::new()
    }

    fn dependencies(&self) -> Vec<usize> {
        Vec::new()
    }

    fn run(&mut self, world: &mut World) {
        match self {
            TestSystem::InitializeEntities => {
                Entity::new(&mut world.register)
                    .add(&mut world.a, CompA(1))
                    .add(&mut world.c, CompC(true));
                let e = Entity::new(&mut world.register).add(&mut world.a, CompA(10));
                let e = e.add(&mut world.b, CompB(0.5));
                e.add(&mut world.c, CompC(true));
                let e = Entity::new(&mut world.register).add(&mut world.a, CompA(10));
                let e = e.add(&mut world.b, CompB(0.5));
                e.add(&mut world.c, CompC(false));
                let e = Entity::new(&mut world.register).add(&mut world.b, CompB(100.0005));
                e.add(&mut world.c, CompC(false));
            },
            TestSystem::AddUsize(amount) => {
                let entries: Vec<(usize, CompA)> = world.a.entries().clone();
                for (id, value) in entries {
                    world.a.component_insert(id, CompA(value.0 + *amount));
                }
            },
            TestSystem::AddCompDIfCompAAndCompB => {
                for (id, (a_value, b_value)) in join2(&world.a, &world.b) {
                    world.d.component_insert(id, CompD(a_value.0 as f64 + b_value.0));
                }
            },
            TestSystem::MultiplyCompDIfCompC(factor) => {
                for (id, (d_value, c_value)) in join2(&world.d, &world.c) {
                    if c_value.0 {
                        world.d.component_insert(id, CompD(d_value.0 * *factor));
                    }
                }
            },
        }
    }
}

/// End to end: entities are created, systems run in dependency order, and
/// every component table ends in the expected state.
#[test]
fn full_test() {
    let mut world = World {
        register: EntityRegister::new(),
        a: ComponentTable::new(),
        b: ComponentTable::new(),
        c: ComponentTable::new(),
        d: ComponentTable::new(),
    };
    let mut systems = vec![
        TestSystem::InitializeEntities,
        TestSystem::AddUsize(10),
        TestSystem::AddCompDIfCompAAndCompB,
        TestSystem::MultiplyCompDIfCompC(2.0),
    ];
    dispatch(&mut systems, &mut world);

    // check the first entity
    let entity = Entity::from(0);
    let a = entity.get(&world.a).expect("A value was unexpectedly none");
    let b = entity.get(&world.b);
    let c = entity.get(&world.c).expect("C value was unexpectedly none");
    let d = entity.get(&world.d);
    assert!(a.0 == 11);
    assert!(b.is_none());
    assert!(c.0 == true);
    assert!(d.is_none());
    // check the second entity
    let entity = Entity::from(1);
    let a = entity.get(&world.a).expect("A value was unexpectedly none");
    let b = entity.get(&world.b).expect("B value was unexpectedly none");
    let c = entity.get(&world.c).expect("C value was unexpectedly none");
    let d = entity.get(&world.d).expect("D value was unexpectedly none");
    assert!(a.0 == 20);
    assert!(b.0 == 0.5);
    assert!(c.0 == true);
    assert!(d.0 == 41.0);
    // check the third entity
    let entity = Entity::from(2);
    let a = entity.get(&world.a).expect("A value was unexpectedly none");
    let b = entity.get(&world.b).expect("B value was unexpectedly none");
    let c = entity.get(&world.c).expect("C value was unexpectedly none");
    let d = entity.get(&world.d).expect("D value was unexpectedly none");
    assert!(a.0 == 20);
    assert!(b.0 == 0.5);
    assert!(c.0 == false);
    assert!(d.0 == 20.5);
    // check the fourth entity
    let entity = Entity::from(3);
    let a = entity.get(&world.a);
    let b = entity.get(&world.b).expect("B value was unexpectedly none");
    let c = entity.get(&world.c).expect("C value was unexpectedly none");
    let d = entity.get(&world.d);
    assert!(a.is_none());
    assert!(b.0 == 100.0005);
    assert!(c.0 == false);
    assert!(d.is_none());
}
