use genecs::system::{
    build_stages, conflicts, dispatch, dispatch_stages, get_longest_dependency_chain, run_plan,
    visit, DispatchPlan, Permisions, System, SystemData,
};

enum Mather {
    Add(usize),
    Mul(usize),
    Div(usize),
}

impl System<usize> for Mather {
    fn signature(&self) -> Vec<(usize, Permisions)> {
        vec![(0, Permisions::Write)]
    }

    fn dependencies(&self) -> Vec<usize> {
        Vec::new()
    }

    fn run(&mut self, world: &mut usize) {
        match self {
            Mather::Add(i) => *world += *i,
            Mather::Mul(i) => *world *= *i,
            Mather::Div(i) => *world /= *i,
        }
    }
}

/// Dispatch runs the systems in order on the calling thread of control.
#[test]
fn system_test() {
    let mut world: usize = 0;
    let mut systems = vec![Mather::Add(1), Mather::Mul(12), Mather::Div(3)];
    dispatch(&mut systems, &mut world);
    assert!(world == 4);
}

enum Adder {
    Add(usize),
}

impl System<usize> for Adder {
    fn signature(&self) -> Vec<(usize, Permisions)> {
        vec![(0, Permisions::Write)]
    }

    fn dependencies(&self) -> Vec<usize> {
        Vec::new()
    }

    fn run(&mut self, world: &mut usize) {
        match self {
            Adder::Add(i) => *world += *i,
        }
    }
}

/// Staged dispatch completes one stage before the next and reaches the same
/// final state as a plain sequential dispatch of the same systems.
#[test]
fn system_par_test() {
    let mut world: usize = 0;
    let mut add_zero = vec![Adder::Add(0)];
    dispatch(&mut add_zero, &mut world);

    let mut adders = vec![Adder::Add(1), Adder::Add(2), Adder::Add(3)];
    // each adder writes storage 0, so the schedule serializes them into
    // three single-system stages of equal rank
    let descriptors = vec![
        SystemData::new(vec![(0, Permisions::Write)], vec![]),
        SystemData::new(vec![(0, Permisions::Write)], vec![]),
        SystemData::new(vec![(0, Permisions::Write)], vec![]),
    ];
    let stages = build_stages(&descriptors).expect("no dependency cycle");
    assert_eq!(stages, vec![vec![0], vec![1], vec![2]]);
    dispatch_stages(&mut adders, &stages, &mut world);
    assert!(world == 6);
    dispatch(&mut adders, &mut world);
    assert!(world == 12);
}

enum Disjoint {
    BumpLeft(usize),
    BumpRight(usize),
}

impl System<(usize, usize)> for Disjoint {
    fn signature(&self) -> Vec<(usize, Permisions)> {
        match self {
            Disjoint::BumpLeft(_) => vec![(0, Permisions::Write)],
            Disjoint::BumpRight(_) => vec![(1, Permisions::Write)],
        }
    }

    fn dependencies(&self) -> Vec<usize> {
        Vec::new()
    }

    fn run(&mut self, world: &mut (usize, usize)) {
        match self {
            Disjoint::BumpLeft(i) => world.0 += *i,
            Disjoint::BumpRight(i) => world.1 += *i,
        }
    }
}

/// Systems with disjoint signatures reach the same final storage state in
/// either execution order, so the schedule may run them concurrently.
#[test]
fn disjoint_systems_commute() {
    let descriptors = vec![
        SystemData::new(vec![(0, Permisions::Write)], vec![]),
        SystemData::new(vec![(1, Permisions::Write)], vec![]),
    ];
    let stages = build_stages(&descriptors).expect("acyclic");
    assert_eq!(stages, vec![vec![0, 1]]);

    let mut world_a: (usize, usize) = (0, 0);
    let mut forward = vec![Disjoint::BumpLeft(3), Disjoint::BumpRight(4)];
    dispatch(&mut forward, &mut world_a);

    let mut world_b: (usize, usize) = (0, 0);
    let mut backward = vec![Disjoint::BumpRight(4), Disjoint::BumpLeft(3)];
    dispatch(&mut backward, &mut world_b);

    assert_eq!(world_a, (3, 4));
    assert_eq!(world_a, world_b);
}

/// A nested dispatch plan runs sequential groups in order; a parallel
/// group's listed order is one of the serializations it permits.
#[test]
fn nested_plan() {
    let mut world: usize = 0;
    let mut systems = vec![
        Mather::Add(1),
        Mather::Mul(12),
        Mather::Add(2),
        Mather::Div(3),
    ];
    let plan = DispatchPlan::Sequence(vec![
        DispatchPlan::Run(0),
        DispatchPlan::Parallel(vec![DispatchPlan::Run(1), DispatchPlan::Run(2)]),
        DispatchPlan::Run(3),
    ]);
    run_plan(&plan, &mut systems, &mut world);
    assert!(world == 4);
}

/// The dependency rank is the longest chain below a system: zero without
/// dependencies, one more than the largest dependency rank otherwise.
#[test]
fn rank_of_chain() {
    // 0 <- 1 <- 2, and 3 depends on 0 and 2
    let relationships = vec![vec![], vec![0], vec![1], vec![0, 2]];
    let ranks = get_longest_dependency_chain(&relationships).expect("acyclic");
    assert_eq!(ranks, vec![0, 1, 2, 3]);
}

/// A cyclic dependency declaration is detected and rejected rather than
/// mis-ranked or recursed into forever.
#[test]
fn rank_detects_cycle() {
    let relationships = vec![vec![1], vec![0]];
    assert!(get_longest_dependency_chain(&relationships).is_none());
    assert!(visit(&relationships, 0, 3).is_none());
    let descriptors = vec![
        SystemData::new(vec![], vec![1]),
        SystemData::new(vec![], vec![0]),
    ];
    assert!(build_stages(&descriptors).is_none());
}

/// A dangling dependency index is rejected like a cycle.
#[test]
fn rank_detects_dangling_index() {
    let relationships = vec![vec![7]];
    assert!(get_longest_dependency_chain(&relationships).is_none());
}

/// Signatures conflict exactly when they share a storage with a write on
/// either side.
#[test]
fn conflict_rules() {
    let r0 = vec![(0, Permisions::Read)];
    let w0 = vec![(0, Permisions::Write)];
    let r0w1 = vec![(0, Permisions::Read), (1, Permisions::Write)];
    let w2 = vec![(2, Permisions::Write)];
    assert!(!conflicts(&r0, &r0));
    assert!(conflicts(&r0, &w0));
    assert!(conflicts(&w0, &w0));
    assert!(!conflicts(&w0, &w2));
    assert!(conflicts(&w0, &r0w1));
    assert!(!conflicts(&r0, &w2));
}

/// Stages group systems by ascending rank, and conflicting systems of one
/// rank are serialized into separate sub-stages while compatible ones share
/// a stage.
#[test]
fn staging_scenario() {
    // systems 0 and 1 are independent roots; 0 writes A, 1 reads A;
    // system 2 reads A and depends on both; system 3 writes B and also
    // depends on them; 2 and 3 are compatible, 0 and 1 are not.
    let a = 10;
    let b = 11;
    let descriptors = vec![
        SystemData::new(vec![(a, Permisions::Write)], vec![]),
        SystemData::new(vec![(a, Permisions::Read)], vec![]),
        SystemData::new(vec![(a, Permisions::Read)], vec![0, 1]),
        SystemData::new(vec![(b, Permisions::Write)], vec![0, 1]),
    ];
    let stages = build_stages(&descriptors).expect("acyclic");
    assert_eq!(stages, vec![vec![0], vec![1], vec![2, 3]]);
}
