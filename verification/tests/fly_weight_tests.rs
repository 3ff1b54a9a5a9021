use klavier_helper::fly_weight::FlyWeight;

#[derive(Hash, PartialEq, Eq)]
struct Data {
    value: i32,
}

impl Data {
    fn new(value: i32) -> Data {
        Data { value }
    }
}

#[test]
fn assume_interned() {
    let d0 = Data::new(0);
    let d1 = Data::new(0);
    let mut pool = FlyWeight::new();

    let d0_interned = pool.intern(&d0);
    assert!(std::ptr::eq(&d0, d0_interned));

    let d1_interned = pool.intern(&d1);
    assert!(std::ptr::eq(&d0, d1_interned));

    let d2 = Data::new(1);
    let d2_interned = pool.intern(&d2);
    assert!(std::ptr::eq(&d2, d2_interned));
}

#[test]
fn interns_each_distinct_value_once() {
    let a = 10u64;
    let b = 10u64;
    let c = 11u64;
    let mut pool: FlyWeight<u64> = FlyWeight::new();
    assert!(std::ptr::eq(pool.intern(&a), &a));
    assert!(std::ptr::eq(pool.intern(&b), &a));
    assert!(std::ptr::eq(pool.intern(&c), &c));
    assert!(std::ptr::eq(pool.intern(&a), &a));
}
