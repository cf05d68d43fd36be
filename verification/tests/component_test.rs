use genecs::component::{join2, join3, ComponentStorage, ComponentTable};
use genecs::static_storage::Registry;
use genecs::system::Permisions;

#[derive(Clone, Copy)]
struct SimpleTuple(u64);

#[derive(Clone, Copy)]
struct SimpleTuple2(u64);

#[derive(Clone, Copy)]
struct SimpleTuple3(u64);

/// Acquiring three tables for writing, filling them, and running the
/// three-way AND-join yields exactly the ids present in all three, ascending,
/// with the corresponding values.
#[test]
fn component_test_component_test() {
    let mut registry = Registry::new();
    let t1 = registry.register();
    let t2 = registry.register();
    let t3 = registry.register();
    let guard = registry
        .try_acquire(&vec![
            (t1, Permisions::Write),
            (t2, Permisions::Write),
            (t3, Permisions::Write),
        ])
        .expect("all three tables should be available");

    let mut st: ComponentTable<SimpleTuple> = ComponentTable::new();
    let mut st2: ComponentTable<SimpleTuple2> = ComponentTable::new();
    let mut st3: ComponentTable<SimpleTuple3> = ComponentTable::new();
    st.component_insert(3, SimpleTuple(1));
    st.component_insert(6, SimpleTuple(2));
    st.component_insert(9, SimpleTuple(3));
    st.component_insert(12, SimpleTuple(4));
    st.component_insert(15, SimpleTuple(5));

    st2.component_insert(0, SimpleTuple2(1));
    st2.component_insert(6, SimpleTuple2(2));
    st2.component_insert(12, SimpleTuple2(3));
    st2.component_insert(18, SimpleTuple2(4));
    st2.component_insert(24, SimpleTuple2(5));

    st3.component_insert(2, SimpleTuple3(1));
    st3.component_insert(4, SimpleTuple3(2));
    st3.component_insert(6, SimpleTuple3(3));
    st3.component_insert(8, SimpleTuple3(4));
    st3.component_insert(10, SimpleTuple3(5));
    st3.component_insert(12, SimpleTuple3(6));

    let joined = join3(&st, &st2, &st3);
    let mut iter = joined.iter();
    let (k, (v1, v2, v3)) = iter.next().unwrap();
    assert!(*k == 6, "key of first join was incorrect");
    assert!(v1.0 == 2, "First value of first join was incorrect");
    assert!(v2.0 == 2, "Second value of first join was incorrect");
    assert!(v3.0 == 3, "Third value of first join was incorrect");
    let (k, (v1, v2, v3)) = iter.next().unwrap();
    assert!(*k == 12, "key of second join was incorrect");
    assert!(v1.0 == 4, "First value of second join was incorrect");
    assert!(v2.0 == 3, "Second value of second join was incorrect");
    assert!(v3.0 == 6, "Third value of second join was incorrect");
    assert!(iter.next().is_none());

    registry.release(guard).expect("all loans were recorded");
}

/// Filling a table under a write loan and reading it back under a read loan
/// produces the entries in ascending id order.
#[test]
fn write_then_read() {
    let mut registry = Registry::new();
    let t = registry.register();
    let mut st: ComponentTable<SimpleTuple> = ComponentTable::new();
    {
        let guard = registry
            .try_acquire(&vec![(t, Permisions::Write)])
            .expect("a fresh table should be writable");
        st.component_insert(3, SimpleTuple(1));
        st.component_insert(6, SimpleTuple(2));
        st.component_insert(9, SimpleTuple(3));
        st.component_insert(12, SimpleTuple(4));
        st.component_insert(15, SimpleTuple(5));
        registry.release(guard).expect("the write loan was recorded");
    }
    {
        let guard = registry
            .try_acquire(&vec![(t, Permisions::Read)])
            .expect("a released table should be readable");
        let mut iter = st.entries().iter();
        let (k, v) = iter.next().unwrap();
        assert!(*k == 3 && v.0 == 1);
        let (k, v) = iter.next().unwrap();
        assert!(*k == 6 && v.0 == 2);
        let (k, v) = iter.next().unwrap();
        assert!(*k == 9 && v.0 == 3);
        let (k, v) = iter.next().unwrap();
        assert!(*k == 12 && v.0 == 4);
        let (k, v) = iter.next().unwrap();
        assert!(*k == 15 && v.0 == 5);
        assert!(iter.next().is_none());
        registry.release(guard).expect("the read loan was recorded");
    }
}

/// Several read loans of the same storage may coexist.
#[test]
fn multiple_reads() {
    let mut registry = Registry::new();
    let t = registry.register();
    let _components = registry
        .try_acquire(&vec![
            (t, Permisions::Read),
            (t, Permisions::Read),
            (t, Permisions::Read),
        ])
        .expect("concurrent reads of one storage are compatible");
}

/// A second write acquisition of the same storage blocks until the first
/// guard is disposed; afterwards each writer sees the other's finished work.
#[test]
fn multiple_writes() {
    let mut registry = Registry::new();
    let t = registry.register();
    let mut st: ComponentTable<SimpleTuple> = ComponentTable::new();

    let first = registry
        .try_acquire(&vec![(t, Permisions::Write)])
        .expect("a fresh table should be writable");
    // A concurrent writer would now block: the set is unavailable.
    assert!(registry.try_acquire(&vec![(t, Permisions::Write)]).is_none());
    assert!(registry.try_acquire(&vec![(t, Permisions::Read)]).is_none());

    st.component_insert(1, SimpleTuple(1));
    st.component_insert(2, SimpleTuple(2));
    st.component_insert(3, SimpleTuple(3));
    registry.release(first).expect("the write loan was recorded");

    let second = registry
        .try_acquire(&vec![(t, Permisions::Write)])
        .expect("the storage was released");
    {
        let mut iter = st.entries().iter();
        let (k, v) = iter.next().unwrap();
        assert!(*k == 1 && v.0 == 1);
        let (k, v) = iter.next().unwrap();
        assert!(*k == 2 && v.0 == 2);
        let (k, v) = iter.next().unwrap();
        assert!(*k == 3 && v.0 == 3);
        assert!(iter.next().is_none());
    }
    st.component_remove(&2);
    registry.release(second).expect("the write loan was recorded");

    let third = registry
        .try_acquire(&vec![(t, Permisions::Read)])
        .expect("the storage was released");
    let mut iter = st.entries().iter();
    let (k, v) = iter.next().unwrap();
    assert!(*k == 1 && v.0 == 1);
    let (k, v) = iter.next().unwrap();
    assert!(*k == 3 && v.0 == 3);
    assert!(iter.next().is_none());
    registry.release(third).expect("the read loan was recorded");
}

/// The two-table AND-join returns exactly the ids present in both tables, in
/// ascending order, paired with both stored values.
#[test]
fn two_table_join() {
    let mut a: ComponentTable<u64> = ComponentTable::new();
    let mut b: ComponentTable<u64> = ComponentTable::new();
    // table A: {3:A1, 6:A2, 9:A3, 12:A4, 15:A5} with An encoded as n
    a.component_insert(3, 1);
    a.component_insert(6, 2);
    a.component_insert(9, 3);
    a.component_insert(12, 4);
    a.component_insert(15, 5);
    // table B: {0:B1, 6:B2, 12:B3, 18:B4, 24:B5}
    b.component_insert(0, 1);
    b.component_insert(6, 2);
    b.component_insert(12, 3);
    b.component_insert(18, 4);
    b.component_insert(24, 5);
    let joined = join2(&a, &b);
    assert_eq!(joined.len(), 2);
    assert_eq!(joined[0], (6, (2, 2)));
    assert_eq!(joined[1], (12, (4, 3)));
}

/// Joining against an empty table yields nothing; overwriting and removing
/// behave as map insert and remove.
#[test]
fn table_edge_cases() {
    let mut a: ComponentTable<u64> = ComponentTable::new();
    let empty: ComponentTable<u64> = ComponentTable::new();
    assert_eq!(a.len(), 0);
    a.component_insert(5, 50);
    a.component_insert(5, 51);
    assert_eq!(a.len(), 1);
    assert_eq!(a.component_get(5), Some(&51));
    assert!(join2(&a, &empty).is_empty());
    assert!(join2(&empty, &a).is_empty());
    a.component_remove(&5);
    assert_eq!(a.component_get(5), None);
    a.component_remove(&5);
    assert_eq!(a.len(), 0);
}

/// The standard ordered map works as a component storage too.
#[test]
fn btree_storage() {
    let mut m: std::collections::BTreeMap<usize, u64> = std::collections::BTreeMap::new();
    m.component_insert(4, 40);
    m.component_insert(2, 20);
    m.component_insert(4, 41);
    assert_eq!(m.component_get(4), Some(&41));
    assert_eq!(m.component_get(2), Some(&20));
    m.component_remove(&2);
    assert_eq!(m.component_get(2), None);
}
