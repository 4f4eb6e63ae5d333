//! Chain Store: one persistent table per chain order, from an encoded
//! ordered tuple of tokens to the encoded set of tokens observed to follow
//! it, plus the persisted order-assignment table.
//!
//! The backend is a sled database, consumed as an ordered key-to-value
//! table abstraction. Every contract below describes a tree through the one
//! handle this crate holds for it; each tree is opened once per run.

use vstd::prelude::*;
use vstd::string::StringSliceAdditionalSpecFns;
use crate::codec::{
    be_bytes_of_u32, be_to_u32, dec_tokens, enc_tokens, encode_tokens, decode_tokens,
    string_from_utf8, u32_to_be, utf8_bytes, utf8_of,
};
use crate::error::ModelError;
use crate::token::seq_views;

verus! {

#[verifier::external_type_specification]
#[verifier::external_body]
pub struct ExDb(sled::Db);

#[verifier::external_type_specification]
#[verifier::external_body]
pub struct ExTree(sled::Tree);

#[verifier::external_type_specification]
#[verifier::external_body]
pub struct ExSledError(sled::Error);

/// What a tree holds, observed through one handle: the map from key bytes
/// to value bytes.
pub uninterp spec fn tree_model(t: sled::Tree) -> Map<Seq<u8>, Seq<u8>>;

/// Relies on sled::Error's Display impl, for error reporting.
#[verifier::external_body]
fn sled_error_text(e: &sled::Error) -> (r: String) {
    format!("{}", e)
}

/// Relies on sled::open: opens or creates the database at this path.
#[verifier::external_body]
fn db_open(path: &str) -> (r: Result<sled::Db, sled::Error>) {
    sled::open(path)
}

/// Relies on sled::Db::open_tree: opens the keyspace named `name`,
/// creating it if absent, so the database's tree-name set gains `name`
/// (idempotently); a failed open creates nothing. The tree's contents are
/// whatever the store holds, a finite map.
#[verifier::external_body]
fn db_open_tree(db: &mut sled::Db, name: &[u8]) -> (r: Result<sled::Tree, sled::Error>)
    ensures
        r matches Ok(t) ==> tree_model(t).dom().finite() && db_tree_set(*final(db))
            == db_tree_set(*old(db)).insert(name@),
        r matches Err(_) ==> db_tree_set(*final(db)) == db_tree_set(*old(db)),
{
    db.open_tree(name)
}

/// Relies on sled::Tree::get: returns the value bytes at this key, if any.
#[verifier::external_body]
fn tree_get(t: &sled::Tree, key: &[u8]) -> (r: Result<Option<Vec<u8>>, sled::Error>)
    ensures
        match r {
            Ok(Some(v)) => tree_model(*t).dom().contains(key@) && tree_model(*t)[key@] == v@,
            Ok(None) => !tree_model(*t).dom().contains(key@),
            Err(_) => true,
        },
{
    match t.get(key) {
        Ok(o) => Ok(o.map(|iv| iv.to_vec())),
        Err(e) => Err(e),
    }
}

/// Relies on sled::Tree::insert: an atomic single-key put; it sets the
/// value at this key, and on a backend failure the tree holds either the
/// old state or the fully applied put, never a partial one.
#[verifier::external_body]
fn tree_insert(t: &mut sled::Tree, key: &[u8], val: &[u8]) -> (r: Result<(), sled::Error>)
    ensures
        tree_model(*final(t)).dom().finite() == tree_model(*old(t)).dom().finite(),
        r matches Ok(_) ==> tree_model(*final(t)) == tree_model(*old(t)).insert(key@, val@),
        r matches Err(_) ==> tree_model(*final(t)) == tree_model(*old(t)) || tree_model(
            *final(t),
        ) == tree_model(*old(t)).insert(key@, val@),
{
    match (*t).insert(key, val) {
        Ok(_) => Ok(()),
        Err(e) => Err(e),
    }
}

/// The names of the trees the database holds. Opening a tree grows this
/// set; listing reads it.
pub uninterp spec fn db_tree_set(db: sled::Db) -> Set<Seq<u8>>;

/// The fixed name of the persisted order-assignment table.
pub open spec fn group_table_name() -> Seq<u8> {
    "groups".spec_bytes()
}

/// Relies on sled::Db::tree_names: lists exactly the names of the trees
/// the database holds, each name once.
#[verifier::external_body]
fn db_tree_names(db: &sled::Db) -> (r: Vec<Vec<u8>>)
    ensures
        forall|i: int, j: int| 0 <= i < j < r@.len() ==> (#[trigger] r@[i])@ != (#[trigger] r@[j])@,
        forall|i: int| 0 <= i < r@.len() ==> db_tree_set(*db).contains((#[trigger] r@[i])@),
        forall|nb: Seq<u8>|
            db_tree_set(*db).contains(nb) ==> exists|i: int|
                0 <= i < r@.len() && (#[trigger] r@[i])@ == nb,
{
    db.tree_names().into_iter().map(|n| n.to_vec()).collect()
}

/// The stored successor list at a key, decoded; an absent or unreadable
/// entry stands for the empty list.
pub open spec fn stored_list(m: Map<Seq<u8>, Seq<u8>>, kb: Seq<u8>) -> Seq<Seq<char>> {
    if m.dom().contains(kb) {
        match dec_tokens(m[kb]) {
            Some(l) => l,
            None => Seq::empty(),
        }
    } else {
        Seq::empty()
    }
}

/// A successor list extended by one token, if it is not already present.
pub open spec fn merged_list(l: Seq<Seq<char>>, w: Seq<char>) -> Seq<Seq<char>> {
    if l.contains(w) {
        l
    } else {
        l.push(w)
    }
}

/// Insert `word` into the successor list stored under `key`, creating the
/// entry if absent; the decoded list of `old` is extended, re-encoded, and
/// returned. Used as the atomic update function of the store.
pub fn add_to_chain(word: &String, old: Option<&[u8]>) -> (r: Option<Vec<u8>>)
    ensures
        match r {
            Some(v) => {
                let l = match old {
                    Some(b) => match dec_tokens(b@) {
                        Some(l) => l,
                        None => Seq::empty(),
                    },
                    None => Seq::<Seq<char>>::empty(),
                };
                &&& v@ == enc_tokens(merged_list(l, word@))
                &&& dec_tokens(v@) == Some(merged_list(l, word@))
            },
            None => false,
        },
{
    let mut list: Vec<String> = match old {
        Some(b) => match decode_tokens(b) {
            Some(v) => v,
            None => Vec::new(),
        },
        None => Vec::new(),
    };
    let ghost l0 = seq_views(list@);
    proof {
        let lspec = match old {
            Some(b) => match dec_tokens(b@) {
                Some(l) => l,
                None => Seq::<Seq<char>>::empty(),
            },
            None => Seq::<Seq<char>>::empty(),
        };
        assert(l0 =~~= lspec);
    }
    let mut present = false;
    let mut i: usize = 0;
    while i < list.len()
        invariant
            i <= list@.len(),
            present <==> exists|k: int| 0 <= k < i && seq_views(list@)[k] == word@,
        decreases list@.len() - i,
    {
        if list[i].eq(word) {
            proof {
                assert(seq_views(list@)[i as int] == word@);
            }
            present = true;
        }
        i += 1;
    }
    proof {
        assert(present <==> l0.contains(word@)) by {
            if l0.contains(word@) {
                let k = l0.lemma_contains_to_index(word@);
            }
        }
    }
    if !present {
        list.push(word.clone());
        proof {
            assert(seq_views(list@) =~= l0.push(word@)) by {
                assert(seq_views(list@.drop_last()) =~= l0);
            }
        }
    }
    proof {
        assert(seq_views(list@) == merged_list(l0, word@));
    }
    Some(encode_tokens(&list))
}

/// Relies on sled::Tree::update_and_fetch: atomically replaces the value at
/// `key` with `add_to_chain(word, current value)`. The new stored bytes are
/// therefore the verified re-encoding of the extended successor list, and
/// they decode back to it. The compare-and-swap installs the full new value
/// or nothing, so on a backend failure the tree holds either the old state
/// or the fully merged one, never a partial update.
#[verifier::external_body]
fn tree_merge(t: &mut sled::Tree, key: &[u8], word: &String) -> (r: Result<(), sled::Error>)
    ensures
        tree_model(*final(t)).dom().finite() == tree_model(*old(t)).dom().finite(),
        r matches Ok(_) ==> {
            let l = merged_list(stored_list(tree_model(*old(t)), key@), word@);
            &&& tree_model(*final(t)) == tree_model(*old(t)).insert(key@, enc_tokens(l))
            &&& dec_tokens(tree_model(*final(t))[key@]) == Some(l)
        },
        r matches Err(_) ==> {
            let l = merged_list(stored_list(tree_model(*old(t)), key@), word@);
            tree_model(*final(t)) == tree_model(*old(t)) || (tree_model(*final(t))
                == tree_model(*old(t)).insert(key@, enc_tokens(l)) && dec_tokens(
                tree_model(*final(t))[key@],
            ) == Some(l))
        },
{
    match (*t).update_and_fetch(key, |old_v: Option<&[u8]>| add_to_chain(word, old_v)) {
        Ok(_) => Ok(()),
        Err(e) => Err(e),
    }
}

/// Relies on sled::Tree::iter: lists every key-value pair of the tree, each
/// key exactly once.
#[verifier::external_body]
fn tree_entries(t: &sled::Tree) -> (r: Result<Vec<(Vec<u8>, Vec<u8>)>, sled::Error>)
    ensures
        match r {
            Ok(v) => {
                &&& forall|i: int|
                    0 <= i < v@.len() ==> tree_model(*t).dom().contains((#[trigger] v@[i]).0@)
                        && tree_model(*t)[v@[i].0@] == v@[i].1@
                &&& forall|kb: Seq<u8>|
                    tree_model(*t).dom().contains(kb) ==> exists|i: int|
                        0 <= i < v@.len() && (#[trigger] v@[i]).0@ == kb
                &&& forall|i: int, j: int|
                    0 <= i < j < v@.len() ==> (#[trigger] v@[i]).0@ != (#[trigger] v@[j]).0@
            },
            Err(_) => true,
        },
{
    let mut out: Vec<(Vec<u8>, Vec<u8>)> = Vec::new();
    for pair in t.iter() {
        match pair {
            Ok((k, v)) => out.push((k.to_vec(), v.to_vec())),
            Err(e) => return Err(e),
        }
    }
    Ok(out)
}

/// Each listed entry is a stored entry with a decodable key, and every
/// stored entry with a decodable key is listed.
pub open spec fn decoded_entries_ok(
    m: Map<Seq<u8>, Seq<Seq<char>>>,
    v: Seq<(Vec<String>, Vec<String>)>,
) -> bool {
    &&& forall|i: int| 0 <= i < v.len() ==> #[trigger] entry_listed(m, v, i)
    &&& forall|kb: Seq<u8>|
        m.dom().contains(kb) && (#[trigger] dec_tokens(kb)) is Some ==> key_covered(m, v, kb)
}

/// The `i`-th listed entry stands for some stored entry.
pub open spec fn entry_listed(
    m: Map<Seq<u8>, Seq<Seq<char>>>,
    v: Seq<(Vec<String>, Vec<String>)>,
    i: int,
) -> bool {
    exists|kb: Seq<u8>| entry_matches(m, kb, v[i])
}

/// The stored entry at key bytes `kb` is listed somewhere.
pub open spec fn key_covered(
    m: Map<Seq<u8>, Seq<Seq<char>>>,
    v: Seq<(Vec<String>, Vec<String>)>,
    kb: Seq<u8>,
) -> bool {
    exists|i: int| 0 <= i < v.len() && entry_matches(m, kb, v[i])
}

/// One listed entry stands for the stored entry at key bytes `kb`.
pub open spec fn entry_matches(
    m: Map<Seq<u8>, Seq<Seq<char>>>,
    kb: Seq<u8>,
    e: (Vec<String>, Vec<String>),
) -> bool {
    &&& m.dom().contains(kb)
    &&& dec_tokens(kb) == Some(seq_views(e.0@))
    &&& seq_views(e.1@) == m[kb]
}

/// Each listed pair is a persisted token-order entry, and every persisted
/// entry is listed.
pub open spec fn group_entries_ok(m: Map<Seq<u8>, Seq<u8>>, v: Seq<(String, u32)>) -> bool {
    &&& forall|i: int| 0 <= i < v.len() ==> group_entry_matches(m, #[trigger] v[i])
    &&& forall|kb: Seq<u8>|
        m.dom().contains(kb) ==> exists|i: int|
            0 <= i < v.len() && utf8_of((#[trigger] v[i]).0@) == kb
}

/// One listed pair stands for a persisted token-order entry.
pub open spec fn group_entry_matches(m: Map<Seq<u8>, Seq<u8>>, e: (String, u32)) -> bool {
    m.dom().contains(utf8_of(e.0@)) && m[utf8_of(e.0@)] == be_bytes_of_u32(e.1)
}

/// A table model extended by one observed successor: `word` joins the
/// successor list stored under the key bytes `kb`.
pub open spec fn spec_merge(
    m: Map<Seq<u8>, Seq<Seq<char>>>,
    kb: Seq<u8>,
    w: Seq<char>,
) -> Map<Seq<u8>, Seq<Seq<char>>> {
    m.insert(
        kb,
        merged_list(
            if m.dom().contains(kb) {
                m[kb]
            } else {
                Seq::empty()
            },
            w,
        ),
    )
}

/// One chain table: the persistent mapping, for one order, from an encoded
/// chain key to the set of tokens observed to follow it.
pub struct ChainTable {
    pub order: u32,
    pub tree: sled::Tree,
}

impl ChainTable {
    /// The decoded model of the table: key bytes to successor lists.
    pub open spec fn model(self) -> Map<Seq<u8>, Seq<Seq<char>>> {
        Map::new(
            |kb: Seq<u8>| tree_model(self.tree).dom().contains(kb),
            |kb: Seq<u8>| stored_list(tree_model(self.tree), kb),
        )
    }

    /// The table's raw key set is finite.
    pub open spec fn wf(self) -> bool {
        tree_model(self.tree).dom().finite()
    }

    /// Atomically insert `word` into the successor set stored under `key`,
    /// creating the entry if absent.
    pub fn merge(&mut self, key: &Vec<String>, word: &String) -> (r: Result<(), ModelError>)
        ensures
            final(self).order == old(self).order,
            old(self).wf() ==> final(self).wf(),
            match r {
                Ok(()) => final(self).model() == spec_merge(
                    old(self).model(),
                    enc_tokens(seq_views(key@)),
                    word@,
                ),
                Err(e) => e matches ModelError::Store(_) && (final(self).model() == old(
                    self,
                ).model() || final(self).model() == spec_merge(
                    old(self).model(),
                    enc_tokens(seq_views(key@)),
                    word@,
                )),
            },
    {
        let kb = encode_tokens(key);
        let ghost kv = enc_tokens(seq_views(key@));
        match tree_merge(&mut self.tree, kb.as_slice(), word) {
            Ok(()) => {
                proof {
                    let m0 = tree_model(old(self).tree);
                    let m1 = tree_model(self.tree);
                    let l = merged_list(stored_list(m0, kv), word@);
                    assert(self.model() =~= spec_merge(old(self).model(), kv, word@)) by {
                        assert forall|kb2: Seq<u8>| self.model().dom().contains(kb2) implies
                            self.model()[kb2] == spec_merge(old(self).model(), kv, word@)[kb2] by {
                            if kb2 == kv {
                                assert(m1[kv] == enc_tokens(l));
                                assert(dec_tokens(m1[kv]) == Some(l));
                                assert(stored_list(m1, kv) == l);
                            } else {
                                assert(m1[kb2] == m0[kb2]);
                            }
                        }
                    }
                }
                Ok(())
            },
            Err(e) => {
                proof {
                    let m0 = tree_model(old(self).tree);
                    let m1 = tree_model(self.tree);
                    let l = merged_list(stored_list(m0, kv), word@);
                    if m1 == m0 {
                        assert(self.model() =~= old(self).model());
                    } else {
                        assert(m1 == m0.insert(kv, enc_tokens(l)));
                        assert(self.model() =~= spec_merge(old(self).model(), kv, word@)) by {
                            assert forall|kb2: Seq<u8>| self.model().dom().contains(kb2) implies
                                self.model()[kb2] == spec_merge(
                                old(self).model(),
                                kv,
                                word@,
                            )[kb2] by {
                                if kb2 == kv {
                                    assert(m1[kv] == enc_tokens(l));
                                    assert(dec_tokens(m1[kv]) == Some(l));
                                    assert(stored_list(m1, kv) == l);
                                } else {
                                    assert(m1[kb2] == m0[kb2]);
                                }
                            }
                        }
                    }
                }
                Err(ModelError::Store(sled_error_text(&e)))
            },
        }
    }

    /// The successor set stored under `key`, if the entry exists.
    pub fn get(&self, key: &Vec<String>) -> (r: Result<Option<Vec<String>>, ModelError>)
        ensures
            match r {
                Ok(Some(v)) => self.model().dom().contains(enc_tokens(seq_views(key@)))
                    && seq_views(v@) == self.model()[enc_tokens(seq_views(key@))],
                Ok(None) => !self.model().dom().contains(enc_tokens(seq_views(key@))),
                Err(e) => e matches ModelError::Store(_),
            },
    {
        let kb = encode_tokens(key);
        match tree_get(&self.tree, kb.as_slice()) {
            Ok(Some(bytes)) => match decode_tokens(bytes.as_slice()) {
                Some(v) => Ok(Some(v)),
                None => {
                    let empty: Vec<String> = Vec::new();
                    proof {
                        assert(seq_views(empty@) =~= Seq::<Seq<char>>::empty());
                    }
                    Ok(Some(empty))
                },
            },
            Ok(None) => Ok(None),
            Err(e) => Err(ModelError::Store(sled_error_text(&e))),
        }
    }

    /// The entries of the table whose keys decode to chain keys, each as
    /// the decoded key and its successor set.
    #[verifier::loop_isolation(false)]
    #[verifier::rlimit(60)]
    #[verifier::spinoff_prover]
    pub fn entries(&self) -> (r: Result<Vec<(Vec<String>, Vec<String>)>, ModelError>)
        ensures
            match r {
                Ok(v) => decoded_entries_ok(self.model(), v@),
                Err(e) => e matches ModelError::Store(_),
            },
    {
        let raw = match tree_entries(&self.tree) {
            Ok(raw) => raw,
            Err(e) => {
                return Err(ModelError::Store(sled_error_text(&e)));
            },
        };
        let mut out: Vec<(Vec<String>, Vec<String>)> = Vec::new();
        let ghost mut kbs: Seq<Seq<u8>> = Seq::empty();
        let mut i: usize = 0;
        while i < raw.len()
            invariant
                i <= raw@.len(),
                kbs.len() == out@.len(),
                forall|j: int|
                    0 <= j < out@.len() ==> entry_matches(self.model(), kbs[j], #[trigger] out@[j]),
                forall|k: int|
                    0 <= k < i && (#[trigger] dec_tokens(raw@[k].0@)) is Some ==> exists|j: int|
                        0 <= j < out@.len() && kbs[j] == raw@[k].0@,
            decreases raw@.len() - i,
        {
            let ghost kb = raw@[i as int].0@;
            match decode_tokens(raw[i].0.as_slice()) {
                Some(kt) => {
                    let st = match decode_tokens(raw[i].1.as_slice()) {
                        Some(st) => st,
                        None => Vec::new(),
                    };
                    proof {
                        assert(self.model().dom().contains(kb));
                        assert(seq_views(st@) =~= self.model()[kb]) by {
                            assert(tree_model(self.tree)[kb] == raw@[i as int].1@);
                            if dec_tokens(raw@[i as int].1@) is None {
                                assert(seq_views(st@) =~= Seq::<Seq<char>>::empty());
                            }
                        }
                    }
                    let ghost pre_out = out@;
                    let ghost pre_kbs = kbs;
                    out.push((kt, st));
                    proof {
                        kbs = kbs.push(kb);
                        let j0 = out@.len() - 1;
                        assert(entry_matches(self.model(), kb, out@[j0]));
                        assert(forall|j: int|
                            0 <= j < pre_out.len() ==> #[trigger] out@[j] == pre_out[j]);
                        assert forall|k: int|
                            0 <= k < i + 1 && (#[trigger] dec_tokens(raw@[k].0@))
                                is Some implies exists|j: int|
                            0 <= j < out@.len() && kbs[j] == raw@[k].0@ by {
                            if k < i {
                                let j = choose|j: int|
                                    0 <= j < pre_out.len() && pre_kbs[j] == raw@[k].0@;
                                assert(kbs[j] == pre_kbs[j]);
                            } else {
                                assert(kbs[j0] == raw@[k].0@);
                            }
                        }
                    }
                },
                None => {
                    proof {
                        assert(dec_tokens(kb) is None);
                    }
                },
            }
            i += 1;
        }
        proof {
            assert forall|j: int| 0 <= j < out@.len() implies #[trigger] entry_listed(
                self.model(),
                out@,
                j,
            ) by {
                assert(entry_matches(self.model(), kbs[j], out@[j]));
            }
            assert forall|kb: Seq<u8>|
                self.model().dom().contains(kb) && (#[trigger] dec_tokens(kb))
                    is Some implies key_covered(self.model(), out@, kb) by {
                assert(tree_model(self.tree).dom().contains(kb));
                let k = choose|k: int| 0 <= k < raw@.len() && (#[trigger] raw@[k]).0@ == kb;
                assert(dec_tokens(raw@[k].0@) is Some);
                let j = choose|j: int| 0 <= j < out@.len() && kbs[j] == raw@[k].0@;
                assert(entry_matches(self.model(), kb, out@[j]));
            }
            assert(decoded_entries_ok(self.model(), out@));
        }
        Ok(out)
    }
}

/// The persisted order-assignment table: token bytes to the four
/// big-endian bytes of the token's order.
pub struct GroupStore {
    pub tree: sled::Tree,
}

impl GroupStore {
    /// The raw model of the table.
    pub open spec fn model(self) -> Map<Seq<u8>, Seq<u8>> {
        tree_model(self.tree)
    }

    /// Persist one token's order.
    pub fn set_order(&mut self, word: &String, order: u32) -> (r: Result<(), ModelError>)
        ensures
            match r {
                Ok(()) => final(self).model() == old(self).model().insert(
                    utf8_of(word@),
                    be_bytes_of_u32(order),
                ),
                Err(e) => e matches ModelError::Store(_) && (final(self).model() == old(
                    self,
                ).model() || final(self).model() == old(self).model().insert(
                    utf8_of(word@),
                    be_bytes_of_u32(order),
                )),
            },
    {
        let kb = utf8_bytes(word.as_str());
        let vb = u32_to_be(order);
        match tree_insert(&mut self.tree, kb.as_slice(), vb.as_slice()) {
            Ok(()) => Ok(()),
            Err(e) => Err(ModelError::Store(sled_error_text(&e))),
        }
    }

    /// Read back every persisted token-order pair. Fails if an entry does
    /// not decode as a token and a four-byte order.
    #[verifier::loop_isolation(false)]
    #[verifier::rlimit(60)]
    #[verifier::spinoff_prover]
    pub fn load_entries(&self) -> (r: Result<Vec<(String, u32)>, ModelError>)
        ensures
            match r {
                Ok(v) => group_entries_ok(self.model(), v@),
                Err(e) => e matches ModelError::Store(_),
            },
    {
        let raw = match tree_entries(&self.tree) {
            Ok(raw) => raw,
            Err(e) => {
                return Err(ModelError::Store(sled_error_text(&e)));
            },
        };
        let mut out: Vec<(String, u32)> = Vec::new();
        let mut i: usize = 0;
        while i < raw.len()
            invariant
                i <= raw@.len(),
                out@.len() == i,
                forall|j: int|
                    0 <= j < out@.len() ==> group_entry_matches(self.model(), #[trigger] out@[j]),
                forall|k: int|
                    0 <= k < i ==> utf8_of((#[trigger] out@[k]).0@) == raw@[k].0@,
            decreases raw@.len() - i,
        {
            let ghost kb = raw@[i as int].0@;
            let key_bytes = raw[i].0.clone();
            let word = match string_from_utf8(key_bytes) {
                Some(w) => w,
                None => {
                    return Err(ModelError::Store(String::from_str("unreadable token key")));
                },
            };
            let order = match be_to_u32(&raw[i].1) {
                Some(o) => o,
                None => {
                    return Err(ModelError::Store(String::from_str("unreadable order value")));
                },
            };
            proof {
                assert(utf8_of(word@) == kb);
                assert(tree_model(self.tree)[kb] == raw@[i as int].1@);
                assert(be_bytes_of_u32(order) =~= raw@[i as int].1@) by {
                    crate::codec::lemma_be_bytes_roundtrip(order);
                    assert(raw@[i as int].1@.len() == 4);
                    assert(order == crate::codec::u32_of_be_bytes(raw@[i as int].1@));
                }
            }
            let ghost pre_out = out@;
            out.push((word, order));
            proof {
                assert(forall|j: int| 0 <= j < pre_out.len() ==> #[trigger] out@[j] == pre_out[j]);
                assert(group_entry_matches(self.model(), out@[i as int]));
            }
            i += 1;
        }
        proof {
            assert forall|kb: Seq<u8>| self.model().dom().contains(kb) implies exists|i2: int|
                0 <= i2 < out@.len() && utf8_of((#[trigger] out@[i2]).0@) == kb by {
                let k = choose|k: int| 0 <= k < raw@.len() && (#[trigger] raw@[k]).0@ == kb;
                assert(utf8_of(out@[k].0@) == kb);
            }
        }
        Ok(out)
    }
}

/// A handle on the persistent model database.
pub struct Persistent {
    pub db: sled::Db,
}

/// Open or create the model database at `db_path`.
pub fn new(db_path: &str) -> (r: Result<Persistent, String>) {
    match db_open(db_path) {
        Ok(d) => Ok(Persistent { db: d }),
        Err(e) => Err(sled_error_text(&e)),
    }
}

impl Persistent {
    /// Wrap an already opened database.
    pub fn from_db(db: sled::Db) -> (r: Persistent) {
        Persistent { db }
    }

    /// Open the persisted order-assignment table, creating it if absent.
    pub fn group_store(&mut self) -> (r: Result<GroupStore, ModelError>)
        ensures
            r matches Ok(_) ==> db_tree_set(final(self).db) == db_tree_set(
                old(self).db,
            ).insert(group_table_name()),
            r matches Err(e) ==> e matches ModelError::Store(_) && db_tree_set(final(self).db)
                == db_tree_set(old(self).db),
    {
        match db_open_tree(&mut self.db, "groups".as_bytes()) {
            Ok(t) => Ok(GroupStore { tree: t }),
            Err(e) => Err(ModelError::Store(sled_error_text(&e))),
        }
    }

    /// The orders whose chain tables the database holds: the trees named
    /// by four big-endian bytes. Other trees, such as the order-assignment
    /// table, are not orders. A chain table exists, and is listed, from the
    /// moment it is first opened for training.
    #[verifier::loop_isolation(false)]
    #[verifier::rlimit(100)]
    #[verifier::spinoff_prover]
    pub fn list_orders(&self) -> (r: Vec<u32>)
        ensures
            forall|i: int, j: int| 0 <= i < j < r@.len() ==> r@[i] != r@[j],
            forall|i: int|
                0 <= i < r@.len() ==> db_tree_set(self.db).contains(
                    crate::codec::be_bytes_of_u32(#[trigger] r@[i]),
                ),
            forall|o: u32|
                #[trigger] db_tree_set(self.db).contains(crate::codec::be_bytes_of_u32(o))
                    ==> r@.contains(o),
    {
        let names = db_tree_names(&self.db);
        let mut orders: Vec<u32> = Vec::new();
        let ghost mut name_at: Seq<Seq<u8>> = Seq::empty();
        let mut i: usize = 0;
        while i < names.len()
            invariant
                i <= names@.len(),
                name_at.len() == orders@.len(),
                forall|a: int|
                    0 <= a < orders@.len() ==> crate::codec::be_bytes_of_u32(#[trigger] orders@[a])
                        == name_at[a],
                forall|a: int|
                    0 <= a < name_at.len() ==> exists|b: int|
                        0 <= b < i && (#[trigger] name_at[a]) == names@[b]@,
                forall|a: int, b: int| 0 <= a < b < name_at.len() ==> name_at[a] != name_at[b],
                forall|b: int|
                    0 <= b < i && (#[trigger] names@[b])@.len() == 4 ==> orders@.contains(
                        crate::codec::u32_of_be_bytes(names@[b]@),
                    ),
            decreases names@.len() - i,
        {
            match be_to_u32(&names[i]) {
                Some(o) => {
                    proof {
                        crate::codec::lemma_be_bytes_roundtrip(o);
                        assert(names@[i as int]@.len() == 4);
                        assert(crate::codec::be_bytes_of_u32(o) =~= names@[i as int]@);
                        assert forall|a: int|
                            0 <= a < name_at.len() implies name_at[a] != names@[i as int]@ by {
                            let b = choose|b: int|
                                0 <= b < i && (#[trigger] name_at[a]) == names@[b]@;
                            assert(names@[b]@ != names@[i as int]@);
                        }
                    }
                    let ghost pre_orders = orders@;
                    orders.push(o);
                    proof {
                        name_at = name_at.push(names@[i as int]@);
                        assert(orders@[orders@.len() - 1] == o);
                        assert forall|b: int|
                            0 <= b < i + 1 && (#[trigger] names@[b])@.len()
                                == 4 implies orders@.contains(
                            crate::codec::u32_of_be_bytes(names@[b]@),
                        ) by {
                            if b < i {
                                let a = choose|a: int|
                                    0 <= a < pre_orders.len() && pre_orders[a]
                                        == crate::codec::u32_of_be_bytes(names@[b]@);
                                assert(orders@[a] == pre_orders[a]);
                            } else {
                                assert(crate::codec::u32_of_be_bytes(names@[b]@) == o);
                            }
                        }
                    }
                },
                None => {
                },
            }
            i += 1;
        }
        proof {
            assert forall|a: int, b: int|
                0 <= a < b < orders@.len() implies orders@[a] != orders@[b] by {
                if orders@[a] == orders@[b] {
                    assert(name_at[a] == name_at[b]);
                }
            }
            assert forall|a: int|
                0 <= a < orders@.len() implies db_tree_set(self.db).contains(
                crate::codec::be_bytes_of_u32(#[trigger] orders@[a]),
            ) by {
                let b = choose|b: int| 0 <= b < i && (#[trigger] name_at[a]) == names@[b]@;
                assert(db_tree_set(self.db).contains(names@[b]@));
            }
            assert forall|o: u32|
                #[trigger] db_tree_set(self.db).contains(
                    crate::codec::be_bytes_of_u32(o),
                ) implies orders@.contains(o) by {
                let nb = crate::codec::be_bytes_of_u32(o);
                let b = choose|b: int| 0 <= b < names@.len() && (#[trigger] names@[b])@ == nb;
                assert(names@[b]@.len() == 4);
                assert(orders@.contains(crate::codec::u32_of_be_bytes(names@[b]@)));
                crate::codec::lemma_be_bytes_roundtrip(o);
            }
        }
        orders
    }

    /// Open the chain table of one order, named by the order's four
    /// big-endian bytes, creating it if absent.
    pub fn chain_table(&mut self, order: u32) -> (r: Result<ChainTable, ModelError>)
        ensures
            match r {
                Ok(t) => t.order == order && t.wf() && db_tree_set(final(self).db)
                    == db_tree_set(old(self).db).insert(be_bytes_of_u32(order)),
                Err(e) => e matches ModelError::Store(_) && db_tree_set(final(self).db)
                    == db_tree_set(old(self).db),
            },
    {
        let name = u32_to_be(order);
        match db_open_tree(&mut self.db, name.as_slice()) {
            Ok(t) => Ok(ChainTable { order, tree: t }),
            Err(e) => Err(ModelError::Store(sled_error_text(&e))),
        }
    }
}

/// Chain Store round trip: merging two successors under one key yields, at
/// that key, exactly the old successor set joined with both tokens, and
/// leaves every other key unchanged.
pub proof fn lemma_merge_round_trip(
    m: Map<Seq<u8>, Seq<Seq<char>>>,
    kb: Seq<u8>,
    t1: Seq<char>,
    t2: Seq<char>,
)
    ensures
        ({
            let m2 = spec_merge(spec_merge(m, kb, t1), kb, t2);
            &&& m2.dom().contains(kb)
            &&& m2[kb].to_set() == (if m.dom().contains(kb) {
                m[kb]
            } else {
                Seq::empty()
            }).to_set().insert(t1).insert(t2)
            &&& forall|kb2: Seq<u8>|
                kb2 != kb ==> #[trigger] m2.dom().contains(kb2) == m.dom().contains(kb2)
            &&& forall|kb2: Seq<u8>| kb2 != kb && m.dom().contains(kb2) ==> #[trigger] m2[kb2]
                == m[kb2]
        }),
{
    let l0 = if m.dom().contains(kb) {
        m[kb]
    } else {
        Seq::empty()
    };
    let l1 = merged_list(l0, t1);
    let l2 = merged_list(l1, t2);
    assert(l1.to_set() == l0.to_set().insert(t1)) by {
        lemma_merged_list_set(l0, t1);
    }
    assert(l2.to_set() == l1.to_set().insert(t2)) by {
        lemma_merged_list_set(l1, t2);
    }
}

/// Extending a successor list inserts exactly the new token into its set.
proof fn lemma_merged_list_set(l: Seq<Seq<char>>, w: Seq<char>)
    ensures
        merged_list(l, w).to_set() == l.to_set().insert(w),
{
    broadcast use vstd::seq_lib::group_seq_properties;

    if l.contains(w) {
        assert(merged_list(l, w).to_set() =~= l.to_set().insert(w));
    } else {
        assert(l.push(w).to_set() =~= l.to_set().insert(w)) by {
            assert forall|x: Seq<char>| l.push(w).to_set().contains(x) implies l.to_set().insert(
                w,
            ).contains(x) by {
                if l.push(w).contains(x) {
                    let i = l.push(w).lemma_contains_to_index(x);
                    if i < l.len() {
                        assert(l[i] == x);
                    }
                }
            }
            assert forall|x: Seq<char>| l.to_set().insert(w).contains(x) implies l.push(
                w,
            ).to_set().contains(x) by {
                if x == w {
                    assert(l.push(w)[l.len() as int] == w);
                } else {
                    let i = l.lemma_contains_to_index(x);
                    assert(l.push(w)[i] == x);
                }
            }
        }
    }
}

} // verus!
