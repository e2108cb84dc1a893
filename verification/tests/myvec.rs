use expr_parser::myvec::Myvec;

#[test]
fn append_and_fetch_round_trip() {
    let mut v: Myvec<i32> = Myvec::empty();
    assert_eq!(v.len, 0);
    assert_eq!(v.capacity(), 0);
    for i in 0..5 {
        v.append(i * 10);
    }
    assert_eq!(v.len, 5);
    assert_eq!(v.fetch(0), Some(&0));
    assert_eq!(v.fetch(4), Some(&40));
    assert_eq!(v.fetch(5), None);
}

#[test]
fn capacity_doubles_when_full() {
    let mut v: Myvec<u8> = Myvec::empty();
    v.append(1);
    assert_eq!(v.capacity(), 1);
    v.append(2);
    assert_eq!(v.capacity(), 2);
    v.append(3);
    assert_eq!(v.capacity(), 4);
    v.append(4);
    v.append(5);
    assert_eq!(v.capacity(), 8);

    let mut w: Myvec<u8> = Myvec::new(3);
    w.append(1);
    w.append(2);
    w.append(3);
    assert_eq!(w.capacity(), 3);
    w.append(4);
    assert_eq!(w.capacity(), 6);
}

#[test]
fn pop_returns_the_last_value() {
    let mut v: Myvec<String> = Myvec::new(2);
    v.append(String::from("first"));
    v.append(String::from("second"));
    assert_eq!(v.pop(), Some(String::from("second")));
    assert_eq!(v.len, 1);
    assert_eq!(v.pop(), Some(String::from("first")));
    assert_eq!(v.pop(), None);
    assert_eq!(v.capacity(), 2);
}

#[test]
fn fetch_or_falls_back_to_the_default() {
    let mut v: Myvec<String> = Myvec::empty();
    v.append(String::from("item-0"));
    let fallback = String::from("foo");
    assert_eq!(v.fetch_or(0, &fallback), "item-0");
    assert_eq!(v.fetch_or(10, &fallback), "foo");
}
