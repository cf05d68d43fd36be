use genecs::component::{Component, ComponentStorage, ComponentTable};
use genecs::entity::{Entity, EntityRegister};
use genecs::static_storage::{AccessState, Error, Guard, Registry, StaticStorage, TypeRegistry};
use genecs::system::Permisions;

/// Type registration is exactly-once: the first lookup of a token creates its
/// storage index, every later lookup returns the same one.
#[test]
fn type_registration_exactly_once() {
    let mut types = TypeRegistry::new();
    let mut registry = Registry::new();
    let a = types.token_for(0xa);
    registry.ensure_len(a + 1);
    let b = types.token_for(0xb);
    registry.ensure_len(b + 1);
    assert_eq!((a, b), (0, 1));
    assert_ne!(a, b);
    assert_eq!(types.token_for(0xa), a);
    assert_eq!(types.token_for(0xb), b);
    assert_eq!(registry.len(), 2);
    assert_eq!(registry.get_access(a), (0, 0));
    assert_eq!(registry.get_access(b), (0, 0));
}

/// A batch reservation and later single allocations never overlap, and two
/// batch reservations return disjoint ranges.
#[test]
fn fresh_ids_never_overlap() {
    let mut register = EntityRegister::new();
    let (s1, e1) = register.get_new_ids(4);
    assert_eq!((s1, e1), (0, 4));
    let single = register.get_new_id();
    assert_eq!(single, 4);
    assert!(!(s1 <= single && single < e1));
    let (s2, e2) = register.get_new_ids(3);
    assert_eq!((s2, e2), (5, 8));
    assert!(e1 <= s2);
}

/// The per-storage accounting takes and returns loans and reports exactly the
/// violation it observes.
#[test]
fn access_state_transitions() {
    let mut s = AccessState::new();
    assert_eq!(s.get_access(), (0, 0));
    assert!(s.read().is_ok());
    assert!(s.read().is_ok());
    assert_eq!(s.get_access(), (2, 0));
    // a writer cannot join readers
    assert_eq!(s.write(), Err(Error::IllegalWriteGuardAcquire));
    assert!(s.release_read_guard().is_ok());
    assert!(s.release_read_guard().is_ok());
    // nothing left to release
    assert_eq!(s.release_read_guard(), Err(Error::UnacountedGuard));
    assert_eq!(s.release_write_guard(), Err(Error::UnacountedGuard));
    assert!(s.write().is_ok());
    assert_eq!(s.get_access(), (0, 1));
    // a reader cannot join a writer
    assert_eq!(s.read(), Err(Error::IllegalReadGuardAcquire));
    // releasing a read while a writer is out is aliasing
    assert_eq!(s.release_read_guard(), Err(Error::AliasingDetected));
    assert!(s.release_write_guard().is_ok());
    assert_eq!(s.get_access(), (0, 0));
}

/// Disposal of a forged guard reports the violation of the first bad loan and
/// returns the loans before it.
#[test]
fn forged_guard_release() {
    let mut registry = Registry::new();
    let t = registry.register();
    // a guard the registry never issued: one real-looking read and one
    // unaccounted write
    let forged = Guard::new(vec![(t, Permisions::Write)]);
    assert_eq!(registry.release(forged), Err(Error::UnacountedGuard));
    // a guard naming a storage that was never registered
    let dangling = Guard::new(vec![(t + 1, Permisions::Read)]);
    assert_eq!(registry.release(dangling), Err(Error::UnacountedGuard));
    // a guard releasing a read while the storage holds only a writer
    let real = registry
        .try_acquire(&vec![(t, Permisions::Write)])
        .expect("fresh storage is writable");
    let aliased = Guard::new(vec![(t, Permisions::Read)]);
    assert_eq!(registry.release(aliased), Err(Error::AliasingDetected));
    assert_eq!(registry.release(real), Ok(()));
}

/// All-or-nothing: a request set with one unavailable member takes no loan at
/// all.
#[test]
fn acquire_all_or_nothing() {
    let mut registry = Registry::new();
    let t1 = registry.register();
    let t2 = registry.register();
    let held = registry
        .try_acquire(&vec![(t2, Permisions::Write)])
        .expect("fresh storage is writable");
    // t1 is free, but the set also wants t2: nothing may be taken
    assert!(!registry.can_acquire(&vec![(t1, Permisions::Write), (t2, Permisions::Read)]));
    assert!(registry.can_acquire(&vec![(t1, Permisions::Write)]));
    assert!(registry
        .try_acquire(&vec![(t1, Permisions::Write), (t2, Permisions::Read)])
        .is_none());
    assert_eq!(registry.get_access(t1), (0, 0));
    // asking for the same writer twice is never satisfiable
    assert!(registry
        .try_acquire(&vec![(t1, Permisions::Write), (t1, Permisions::Write)])
        .is_none());
    assert_eq!(registry.get_access(t1), (0, 0));
    registry.release(held).expect("the loan was recorded");
    let both = registry
        .try_acquire(&vec![(t1, Permisions::Write), (t2, Permisions::Read)])
        .expect("everything was released");
    assert_eq!(registry.get_access(t1), (0, 1));
    assert_eq!(registry.get_access(t2), (1, 0));
    assert_eq!(both.get().len(), 2);
    registry.release(both).expect("the loans were recorded");
    assert_eq!(registry.get_access(t1), (0, 0));
    assert_eq!(registry.get_access(t2), (0, 0));
}

/// Every error names the invariant it reports.
#[test]
fn error_messages() {
    assert_eq!(
        Error::AliasingDetected.message(),
        "read and write loans to the same storage were detected"
    );
    assert_eq!(
        Error::UnacountedGuard.message(),
        "released a guard the storage had no record of"
    );
    assert_eq!(
        Error::IllegalReadGuardAcquire.message(),
        "acquired a read guard while a write guard exists"
    );
    assert_eq!(
        Error::IllegalWriteGuardAcquire.message(),
        "acquired a write guard while a read or a write guard exists"
    );
}

#[derive(Clone, Copy)]
struct Marker(u64);

impl Component<ComponentTable<Marker>> for Marker {}

/// The entity handle forwards adds, lookups and removals to the store it is
/// given.
#[test]
fn entity_handle() {
    let mut register = EntityRegister::new();
    let mut table: ComponentTable<Marker> = ComponentTable::new();
    let e = Entity::new(&mut register);
    assert_eq!(e.get_id(), 0);
    let e = e.add(&mut table, Marker(7));
    assert_eq!(e.get_id(), 0);
    assert_eq!(e.get(&table).map(|m| m.0), Some(7));
    let same = Entity::from(0usize);
    assert_eq!(same.get(&table).map(|m| m.0), Some(7));
    same.rm(&mut table);
    assert!(Entity::from(0usize).get(&table).is_none());
}
