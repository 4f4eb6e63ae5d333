use rustygenmo::error::ModelError;
use rustygenmo::freq::OrderAssignment;
use rustygenmo::store::Persistent;
use rustygenmo::train::{groups, train, train_corpus, ChainSet};

fn temp_store() -> Persistent {
    let db = sled::Config::new().temporary(true).open().unwrap();
    Persistent::from_db(db)
}

fn key(words: &[&str]) -> Vec<String> {
    words.iter().map(|w| w.to_string()).collect()
}

#[test]
fn scenario_training_builds_order_two_chains() {
    let mut p = temp_store();
    let docs = vec![String::from("The cat sat. The cat ran.")];
    let a = train_corpus(&mut p, 1, &docs).unwrap();
    for w in ["the", "cat", "sat", "ran"].iter() {
        assert_eq!(a.order_of(&w.to_string()), Some(2));
    }
    let t = p.chain_table(2).unwrap();
    let succs = t.get(&key(&["the", "cat"])).unwrap().unwrap();
    assert!(succs.contains(&String::from("sat")));
    assert!(succs.contains(&String::from("ran")));
    assert_eq!(succs.len(), 2);
}

#[test]
fn positions_without_lookahead_are_skipped() {
    let mut p = temp_store();
    // "cc" ends the document; with order 2 no key can start at its position.
    let docs = vec![String::from("aa bb aa bb cc")];
    let a = train_corpus(&mut p, 2, &docs).unwrap();
    assert_eq!(a.order_of(&String::from("cc")), Some(1));
    let t1 = p.chain_table(1).unwrap();
    // The order-1 chain for "cc" has no successor: no entry was created.
    assert!(t1.get(&key(&["cc"])).unwrap().is_none());
    // "aa" has order 2: key (aa, bb) is followed by aa and cc.
    let t2 = p.chain_table(2).unwrap();
    let succs = t2.get(&key(&["aa", "bb"])).unwrap().unwrap();
    assert!(succs.contains(&String::from("aa")));
    assert!(succs.contains(&String::from("cc")));
}

#[test]
fn training_twice_changes_nothing() {
    let mut p = temp_store();
    let docs = vec![
        String::from("The cat sat. The cat ran."),
        String::from("A cat ran away today."),
    ];
    let a = train_corpus(&mut p, 2, &docs).unwrap();
    let orders = a.distinct_orders();
    let mut before: Vec<(u32, Vec<(Vec<String>, Vec<String>)>)> = Vec::new();
    for o in orders.iter() {
        let t = p.chain_table(*o).unwrap();
        let mut items = t.entries().unwrap();
        items.sort();
        for item in items.iter_mut() {
            item.1.sort();
        }
        before.push((*o, items));
    }
    // Second pass over the same documents.
    let mut cs = ChainSet::open_for(&mut p, &a).unwrap();
    train(&mut cs, &a, &docs).unwrap();
    for (o, old_items) in before.iter() {
        let t = p.chain_table(*o).unwrap();
        let mut items = t.entries().unwrap();
        items.sort();
        for item in items.iter_mut() {
            item.1.sort();
        }
        assert_eq!(&items, old_items);
    }
}

#[test]
fn empty_corpus_leaves_the_store_untouched() {
    let mut p = temp_store();
    let docs: Vec<String> = Vec::new();
    let mut gs = p.group_store().unwrap();
    let r = groups(&mut gs, 1, &docs);
    assert!(matches!(r, Err(ModelError::EmptyCorpus)));
    let r2 = train_corpus(&mut p, 1, &vec![String::from(" ... ")]);
    assert!(matches!(r2, Err(ModelError::EmptyCorpus)));
    assert_eq!(gs.load_entries().unwrap(), Vec::new());
}

#[test]
fn unassigned_tokens_fail_with_missing_order() {
    let mut p = temp_store();
    let a = OrderAssignment::from_entries(vec![(String::from("the"), 1)]).unwrap();
    let mut cs = ChainSet::open_for(&mut p, &a).unwrap();
    let docs = vec![String::from("the cat")];
    let r = train(&mut cs, &a, &docs);
    match r {
        Err(ModelError::MissingOrder(w)) => assert_eq!(w, "cat"),
        other => panic!("expected a missing order, got {:?}", other),
    }
}

#[test]
fn a_full_run_never_misses_an_order() {
    let mut p = temp_store();
    let docs = vec![String::from("one two three two one. three one two.")];
    let a = train_corpus(&mut p, 3, &docs).unwrap();
    assert_eq!(a.len(), 3);
}
