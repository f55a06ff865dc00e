use mynotes::object_pool::{ObjectPool, Poolable};

#[derive(Debug, PartialEq)]
struct MyObject {
    value: i32,
}

impl Poolable for MyObject {
    fn is_fresh(&self) -> bool {
        self.value == 0
    }

    fn new() -> Self {
        MyObject { value: 0 }
    }

    fn reset(&mut self) {
        self.value = 0;
    }
}

#[test]
fn test_allocate() {
    let mut pool = ObjectPool::<MyObject>::new();
    let index = pool.allocate();

    assert_eq!(pool.get_object(index).unwrap().value, 0);
    assert_eq!(pool.len(), 1);
}

#[test]
fn test_deallocate() {
    let mut pool = ObjectPool::<MyObject>::new();
    let index = pool.allocate();

    assert_eq!(index, 0);

    pool.deallocate(index);

    assert!(pool.get_object(index).is_none());
    assert_eq!(pool.len(), 0);
    assert_eq!(pool.allocate(), index);
}

#[test]
fn test_get_object() {
    let mut pool = ObjectPool::<MyObject>::new();
    let index = pool.allocate();

    assert_eq!(pool.get_object(index).unwrap().value, 0);
}

#[test]
fn test_get_object_mut() {
    let mut pool = ObjectPool::<MyObject>::new();
    let index = pool.allocate();

    assert_eq!(pool.get_object_mut(index).unwrap().value, 0);

    {
        let obj = pool.get_object_mut(index).unwrap();

        obj.value = 42;
    }

    assert_eq!(pool.get_object(index).unwrap().value, 42);
}

#[test]
fn test_len_and_is_empty() {
    let mut pool = ObjectPool::<MyObject>::new();

    assert!(pool.is_empty());
    assert_eq!(pool.len(), 0);

    let index1 = pool.allocate();
    let index2 = pool.allocate();

    assert!(!pool.is_empty());
    assert_eq!(pool.len(), 2);

    pool.deallocate(index1);

    assert!(!pool.is_empty());
    assert_eq!(pool.len(), 1);

    pool.deallocate(index2);

    assert!(pool.is_empty());
    assert_eq!(pool.len(), 0);
}

#[test]
fn test_deallocate_out_of_bounds_noop() {
    let mut pool = ObjectPool::<MyObject>::new();

    pool.deallocate(999);

    assert!(pool.is_empty());
    assert_eq!(pool.len(), 0);
}

#[test]
fn test_deallocate_resets_object() {
    let mut pool = ObjectPool::<MyObject>::new();

    let index = pool.allocate();

    {
        let obj = pool.get_object_mut(index).unwrap();
        obj.value = 42;
    }

    pool.deallocate(index);

    assert!(pool.get_object(index).is_none());

    let new_index = pool.allocate();
    assert_eq!(index, new_index);

    let reused_obj = pool.get_object(new_index).unwrap();
    assert_eq!(reused_obj.value, 0);
}

#[test]
fn double_deallocate_counts_once() {
    let mut pool = ObjectPool::<MyObject>::new();
    let a = pool.allocate();
    let b = pool.allocate();

    pool.deallocate(a);
    pool.deallocate(a);
    assert_eq!(pool.len(), 1);

    let c = pool.allocate();
    assert_eq!(c, a);
    let d = pool.allocate();
    assert_eq!(d, 2);
    assert_ne!(d, b);
    assert_eq!(pool.len(), 3);
}

#[test]
fn freed_slots_are_reused_last_freed_first() {
    let mut pool = ObjectPool::<MyObject>::new();
    let a = pool.allocate();
    let b = pool.allocate();
    let _c = pool.allocate();

    pool.deallocate(a);
    pool.deallocate(b);

    assert_eq!(pool.allocate(), b);
    assert_eq!(pool.allocate(), a);
    assert_eq!(pool.allocate(), 3);
}

#[test]
fn recycled_slot_holds_a_reset_object() {
    let mut pool = ObjectPool::<MyObject>::new();
    let index = pool.allocate();
    pool.get_object_mut(index).unwrap().value = 7;
    pool.deallocate(index);
    let again = pool.allocate();
    assert_eq!(again, index);
    assert_eq!(pool.get_object(again).unwrap().value, 0);
}
