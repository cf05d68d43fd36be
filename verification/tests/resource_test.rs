use genecs::resource::Resource;
use genecs::static_storage::Registry;
use genecs::system::Permisions;

struct SimpleTuple(u64);

impl Resource for SimpleTuple {}

/// A singleton resource written under a write loan is seen by a later read
/// loan.
#[test]
fn resource_test_component_test() {
    let mut registry = Registry::new();
    let token = registry.register();
    let mut res = SimpleTuple(0);

    let guard = registry
        .try_acquire(&vec![(token, Permisions::Write)])
        .expect("a fresh resource should be writable");
    res.0 = 5;
    registry.release(guard).expect("the write loan was recorded");

    let guard = registry
        .try_acquire(&vec![(token, Permisions::Read)])
        .expect("the resource was released");
    assert!(res.0 == 5);
    registry.release(guard).expect("the read loan was recorded");
}
