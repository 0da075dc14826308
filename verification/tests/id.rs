use nitro::id::{Id, IdRange};

#[test]
fn id_text_is_client_and_clock() {
    assert_eq!(Id::new(1, 2).to_string(), "(1, 2)");
    assert_eq!(Id::new(4294967295, 0).to_string(), "(4294967295, 0)");
}

#[test]
fn id_range_text_is_client_start_and_end() {
    assert_eq!(IdRange::new(7, 10, 19).to_string(), "(7, 10, 19)");
}

#[test]
fn id_range_split_and_join() {
    let r = IdRange::new(1, 10, 19);
    let (a, b) = r.split(4).unwrap();
    assert_eq!(a.to_string(), "(1, 10, 13)");
    assert_eq!(b.to_string(), "(1, 14, 19)");
    assert_eq!(a.join(b).to_string(), "(1, 10, 19)");
    assert!(r.split(0).is_err());
}

#[test]
fn test_compare() {
    let clients = vec![nitro::client::Client::default(), nitro::client::Client::default()];

    let id1 = IdRange::new(0, 1, 1);
    let id2 = IdRange::new(0, 1, 1);
    let id3 = IdRange::new(0, 2, 1);
    let id4 = IdRange::new(0, 2, 2);

    // compare without client
    assert_eq!(id1.compare_without_client(&id2), std::cmp::Ordering::Equal);
    assert_eq!(id1.compare_without_client(&id3), std::cmp::Ordering::Less);
    assert_eq!(id3.compare_without_client(&id1), std::cmp::Ordering::Greater);
    assert_eq!(id3.compare_without_client(&id4), std::cmp::Ordering::Less);
    assert_eq!(id1.compare(&id2, &clients), std::cmp::Ordering::Equal);
}

#[test]
fn test_client() {
    let client = nitro::client::Client::default();
    println!("{}", client.to_string());
}
