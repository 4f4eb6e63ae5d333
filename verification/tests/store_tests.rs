use rustygenmo::codec::{be_to_u32, u32_to_be};
use rustygenmo::error::ModelError;
use rustygenmo::store::{add_to_chain, new, Persistent};
use rustygenmo::train::{load_assignment, persist_assignment};
use rustygenmo::freq::OrderAssignment;

fn temp_store() -> Persistent {
    let db = sled::Config::new().temporary(true).open().unwrap();
    Persistent::from_db(db)
}

fn key(words: &[&str]) -> Vec<String> {
    words.iter().map(|w| w.to_string()).collect()
}

#[test]
fn merge_then_get_round_trips() {
    let mut p = temp_store();
    let mut t = p.chain_table(2).unwrap();
    let k = key(&["the", "cat"]);
    t.merge(&k, &String::from("sat")).unwrap();
    t.merge(&k, &String::from("ran")).unwrap();
    let got = t.get(&k).unwrap().unwrap();
    assert_eq!(got.len(), 2);
    assert!(got.contains(&String::from("sat")));
    assert!(got.contains(&String::from("ran")));
}

#[test]
fn merging_a_successor_twice_adds_it_once() {
    let mut p = temp_store();
    let mut t = p.chain_table(2).unwrap();
    let k = key(&["the", "cat"]);
    t.merge(&k, &String::from("sat")).unwrap();
    t.merge(&k, &String::from("sat")).unwrap();
    let got = t.get(&k).unwrap().unwrap();
    assert_eq!(got, vec![String::from("sat")]);
}

#[test]
fn absent_keys_read_back_as_none() {
    let mut p = temp_store();
    let t = p.chain_table(3).unwrap();
    assert!(t.get(&key(&["no", "such", "key"])).unwrap().is_none());
}

#[test]
fn entries_list_every_chain() {
    let mut p = temp_store();
    let mut t = p.chain_table(1).unwrap();
    t.merge(&key(&["a"]), &String::from("b")).unwrap();
    t.merge(&key(&["c"]), &String::from("d")).unwrap();
    let mut items = t.entries().unwrap();
    items.sort();
    assert_eq!(items.len(), 2);
    assert_eq!(items[0].0, key(&["a"]));
    assert_eq!(items[0].1, vec![String::from("b")]);
}

#[test]
fn tables_of_different_orders_are_disjoint() {
    let mut p = temp_store();
    let mut t1 = p.chain_table(1).unwrap();
    let t2 = p.chain_table(2).unwrap();
    t1.merge(&key(&["a"]), &String::from("b")).unwrap();
    assert!(t2.get(&key(&["a"])).unwrap().is_none());
}

#[test]
fn group_store_round_trips_orders() {
    let mut p = temp_store();
    let mut gs = p.group_store().unwrap();
    gs.set_order(&String::from("the"), 2).unwrap();
    gs.set_order(&String::from("cat"), 7).unwrap();
    let mut pairs = gs.load_entries().unwrap();
    pairs.sort();
    assert_eq!(pairs, vec![(String::from("cat"), 7), (String::from("the"), 2)]);
}

#[test]
fn persisted_assignment_loads_back() {
    let mut p = temp_store();
    let mut gs = p.group_store().unwrap();
    let a = OrderAssignment::from_entries(vec![
        (String::from("x"), 2),
        (String::from("y"), 1),
    ])
    .unwrap();
    persist_assignment(&mut gs, &a).unwrap();
    let b = load_assignment(&gs).unwrap();
    assert_eq!(b.order_of(&String::from("x")), Some(2));
    assert_eq!(b.order_of(&String::from("y")), Some(1));
    assert_eq!(b.order_of(&String::from("z")), None);
}

#[test]
fn list_orders_names_the_chain_tables() {
    let mut p = temp_store();
    assert_eq!(p.list_orders(), Vec::<u32>::new());
    let mut t2 = p.chain_table(2).unwrap();
    t2.merge(&key(&["the", "cat"]), &String::from("sat")).unwrap();
    let mut t3 = p.chain_table(3).unwrap();
    t3.merge(&key(&["a", "b", "c"]), &String::from("d")).unwrap();
    // The order-assignment table is not an order.
    let mut gs = p.group_store().unwrap();
    gs.set_order(&String::from("the"), 2).unwrap();
    let mut orders = p.list_orders();
    orders.sort();
    assert_eq!(orders, vec![2, 3]);
}

#[test]
fn order_names_encode_as_big_endian_bytes() {
    for x in [0u32, 1, 2, 255, 256, 0xDEAD_BEEF, u32::MAX] {
        let b = u32_to_be(x);
        assert_eq!(b.len(), 4);
        assert_eq!(be_to_u32(&b), Some(x));
        assert_eq!(b, x.to_be_bytes().to_vec());
    }
    assert_eq!(be_to_u32(&vec![1, 2, 3]), None);
}

#[test]
fn chain_values_are_bincode_token_lists() {
    let bytes = add_to_chain(&String::from("sat"), None).unwrap();
    let decoded: Vec<String> = bincode::deserialize(&bytes).unwrap();
    assert_eq!(decoded, vec![String::from("sat")]);
    let bytes2 = add_to_chain(&String::from("ran"), Some(&bytes)).unwrap();
    let decoded2: Vec<String> = bincode::deserialize(&bytes2).unwrap();
    assert_eq!(decoded2, vec![String::from("sat"), String::from("ran")]);
}

#[test]
fn opening_a_store_at_a_path_reports_errors_as_text() {
    // An empty path cannot be opened as a database.
    let r = new("");
    assert!(r.is_err());
}

#[test]
fn error_tags_name_each_variant() {
    assert_eq!(ModelError::EmptyCorpus.tag(), "empty corpus");
    assert_eq!(ModelError::MissingOrder(String::from("w")).tag(), "missing order");
    assert_eq!(ModelError::Store(String::from("x")).tag(), "store failure");
    assert_eq!(ModelError::EmptyStore.tag(), "empty store");
}
