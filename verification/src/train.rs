//! Trainer: streams documents, looks up each token's order, and inserts
//! the observed successor into the chain table of that order.

use vstd::prelude::*;
use crate::codec::enc_tokens;
use crate::error::ModelError;
use crate::freq::{firsts, lookup_order, OrderAssignment};
use crate::store::{merged_list, spec_merge, ChainTable, GroupStore, Persistent};
use crate::token::{create_corpus, seq_views, tokenize};

verus! {

/// The model of the whole chain store: for every order, the decoded model
/// of its table; an order with no table stands for the empty table.
pub type ChainsModel = Map<u32, Map<Seq<u8>, Seq<Seq<char>>>>;

/// Whether some table carries this order.
pub open spec fn has_order(ts: Seq<ChainTable>, o: u32) -> bool {
    exists|i: int| 0 <= i < ts.len() && (#[trigger] ts[i]).order == o
}

/// The index of the table carrying this order.
pub open spec fn order_index(ts: Seq<ChainTable>, o: u32) -> int {
    choose|i: int| 0 <= i < ts.len() && (#[trigger] ts[i]).order == o
}

/// The orders of the tables, in table order.
pub open spec fn orders_of(ts: Seq<ChainTable>) -> Seq<u32> {
    ts.map_values(|t: ChainTable| t.order)
}

/// The store model held by a sequence of tables.
pub open spec fn chains_model(ts: Seq<ChainTable>) -> ChainsModel {
    Map::new(
        |o: u32| true,
        |o: u32|
            if has_order(ts, o) {
                ts[order_index(ts, o)].model()
            } else {
                Map::empty()
            },
    )
}

/// A store model extended by one observed successor in one order's table.
pub open spec fn spec_merge_at(m: ChainsModel, o: u32, kb: Seq<u8>, w: Seq<char>) -> ChainsModel {
    m.insert(o, spec_merge(m[o], kb, w))
}

/// One training step: at position `i`, look up the token's order `g`; if a
/// successor exists at distance `g`, insert it under the key built from the
/// `g` tokens starting at `i`; otherwise change nothing.
pub open spec fn train_step(
    m: ChainsModel,
    ps: Seq<(String, u32)>,
    tv: Seq<Seq<char>>,
    i: int,
) -> ChainsModel {
    match lookup_order(ps, tv[i]) {
        Some(g) => if i + g < tv.len() {
            spec_merge_at(m, g, enc_tokens(tv.subrange(i, i + g)), tv[i + g])
        } else {
            m
        },
        None => m,
    }
}

/// Training steps folded over the positions from `i` on.
pub open spec fn train_positions(
    m: ChainsModel,
    ps: Seq<(String, u32)>,
    tv: Seq<Seq<char>>,
    i: int,
) -> ChainsModel
    decreases tv.len() - i,
{
    if 0 <= i < tv.len() {
        train_positions(train_step(m, ps, tv, i), ps, tv, i + 1)
    } else {
        m
    }
}

/// Documents folded into the store from index `k` on: each document is
/// tokenized and trained position by position.
pub open spec fn train_texts(
    m: ChainsModel,
    ps: Seq<(String, u32)>,
    docs: Seq<Seq<char>>,
    k: int,
) -> ChainsModel
    decreases docs.len() - k,
{
    if 0 <= k < docs.len() {
        train_texts(train_positions(m, ps, tokenize(docs[k]), 0), ps, docs, k + 1)
    } else {
        m
    }
}

/// The open chain tables of one run, one per distinct order.
pub struct ChainSet {
    pub tables: Vec<ChainTable>,
}

impl ChainSet {
    /// The store model of the open tables.
    pub open spec fn model(self) -> ChainsModel {
        chains_model(self.tables@)
    }

    /// Orders are distinct and every table is well formed.
    pub open spec fn wf(self) -> bool {
        &&& forall|i: int, j: int|
            0 <= i < j < self.tables@.len() ==> (#[trigger] self.tables@[i]).order != (
            #[trigger] self.tables@[j]).order
        &&& forall|i: int| 0 <= i < self.tables@.len() ==> (#[trigger] self.tables@[i]).wf()
    }

    /// Every order of the assignment has a table.
    pub open spec fn covers(self, ps: Seq<(String, u32)>) -> bool {
        forall|j: int| 0 <= j < ps.len() ==> has_order(self.tables@, (#[trigger] ps[j]).1)
    }

    /// Open one table per distinct order of the assignment, creating the
    /// missing ones; the database's tree-name set only grows.
    #[verifier::loop_isolation(false)]
    pub fn open_for(p: &mut Persistent, a: &OrderAssignment) -> (r: Result<ChainSet, ModelError>)
        ensures
            forall|nb: Seq<u8>|
                crate::store::db_tree_set(old(p).db).contains(nb)
                    ==> crate::store::db_tree_set(#[trigger] final(p).db).contains(nb),
            match r {
                Ok(cs) => cs.wf() && cs.covers(a.spec_entries()),
                Err(e) => e matches ModelError::Store(_),
            },
    {
        let orders = a.distinct_orders();
        let mut tables: Vec<ChainTable> = Vec::new();
        let mut i: usize = 0;
        while i < orders.len()
            invariant
                i <= orders@.len(),
                tables@.len() == i,
                forall|j: int| 0 <= j < i ==> (#[trigger] tables@[j]).order == orders@[j],
                forall|j: int| 0 <= j < i ==> (#[trigger] tables@[j]).wf(),
                forall|nb: Seq<u8>|
                    crate::store::db_tree_set(old(p).db).contains(nb)
                        ==> crate::store::db_tree_set(#[trigger] p.db).contains(nb),
            decreases orders@.len() - i,
        {
            match p.chain_table(orders[i]) {
                Ok(t) => {
                    tables.push(t);
                },
                Err(e) => {
                    return Err(e);
                },
            }
            i += 1;
        }
        let cs = ChainSet { tables };
        proof {
            crate::freq::lemma_firsts_props(a.orders());
            assert forall|i2: int, j2: int|
                0 <= i2 < j2 < cs.tables@.len() implies (#[trigger] cs.tables@[i2]).order != (
            #[trigger] cs.tables@[j2]).order by {
                assert(cs.tables@[i2].order == orders@[i2]);
                assert(cs.tables@[j2].order == orders@[j2]);
            }
            assert forall|j: int|
                0 <= j < a.spec_entries().len() implies has_order(
                cs.tables@,
                (#[trigger] a.spec_entries()[j]).1,
            ) by {
                let g = a.spec_entries()[j].1;
                assert(a.orders()[j] == g);
                assert(a.orders().contains(g));
                assert(firsts(a.orders()).contains(g)) by {
                    crate::freq::lemma_firsts_props(a.orders());
                }
                let k = firsts(a.orders()).lemma_contains_to_index(g);
                assert(cs.tables@[k].order == orders@[k]);
            }
        }
        Ok(cs)
    }
}

impl ChainSet {
    /// Insert one observed successor into the table of order `g`.
    #[verifier::loop_isolation(false)]
    fn merge_at(&mut self, g: u32, key: &Vec<String>, word: &String) -> (r: Result<
        (),
        ModelError,
    >)
        requires
            old(self).wf(),
            has_order(old(self).tables@, g),
        ensures
            final(self).wf(),
            orders_of(final(self).tables@) == orders_of(old(self).tables@),
            match r {
                Ok(()) => final(self).model() == spec_merge_at(
                    old(self).model(),
                    g,
                    enc_tokens(seq_views(key@)),
                    word@,
                ),
                Err(e) => e matches ModelError::Store(_) && (final(self).model() == old(
                    self,
                ).model() || final(self).model() == spec_merge_at(
                    old(self).model(),
                    g,
                    enc_tokens(seq_views(key@)),
                    word@,
                )),
            },
    {
        let mut ti: usize = 0;
        while ti < self.tables.len() && self.tables[ti].order != g
            invariant
                ti <= self.tables@.len(),
                forall|k: int| 0 <= k < ti ==> (#[trigger] self.tables@[k]).order != g,
            decreases self.tables@.len() - ti,
        {
            ti += 1;
        }
        proof {
            if ti == self.tables@.len() {
                let i = choose|i: int|
                    0 <= i < self.tables@.len() && (#[trigger] self.tables@[i]).order == g;
                assert(false);
            }
            lemma_order_index(self.tables@, g);
            assert(order_index(self.tables@, g) == ti);
        }
        let ghost pre = self.tables@;
        let mut tab = self.tables.remove(ti);
        let res = tab.merge(key, word);
        self.tables.insert(ti, tab);
        proof {
            assert(self.tables@ =~= pre.update(ti as int, self.tables@[ti as int]));
            let tab2 = self.tables@[ti as int];
            lemma_chains_model_update(pre, ti as int, tab2);
            assert(chains_model(self.tables@) == chains_model(pre).insert(g, tab2.model()));
            assert(orders_of(self.tables@) =~= orders_of(pre));
            assert forall|i: int, j: int|
                0 <= i < j < self.tables@.len() implies (#[trigger] self.tables@[i]).order != (
            #[trigger] self.tables@[j]).order by {
                assert(self.tables@[i].order == pre[i].order);
                assert(self.tables@[j].order == pre[j].order);
            }
            assert forall|i: int| 0 <= i < self.tables@.len() implies (
            #[trigger] self.tables@[i]).wf() by {
                if i != ti {
                    assert(self.tables@[i] == pre[i]);
                }
            }
            assert(chains_model(pre)[g] == pre[ti as int].model());
            if res is Ok {
                assert(tab2.model() == spec_merge(
                    chains_model(pre)[g],
                    enc_tokens(seq_views(key@)),
                    word@,
                ));
            } else {
                if tab2.model() == pre[ti as int].model() {
                    assert(chains_model(self.tables@) =~~= chains_model(pre)) by {
                        assert(chains_model(pre).insert(g, chains_model(pre)[g])
                            =~= chains_model(pre));
                    }
                } else {
                    assert(tab2.model() == spec_merge(
                        chains_model(pre)[g],
                        enc_tokens(seq_views(key@)),
                        word@,
                    ));
                }
            }
        }
        match res {
            Ok(()) => Ok(()),
            Err(e) => Err(e),
        }
    }
}

/// Tables with equal order sequences carry the same orders.
proof fn lemma_same_orders(ts1: Seq<ChainTable>, ts2: Seq<ChainTable>)
    requires
        orders_of(ts1) == orders_of(ts2),
    ensures
        forall|o: u32| has_order(ts1, o) == has_order(ts2, o),
{
    assert(orders_of(ts1).len() == ts1.len());
    assert(orders_of(ts2).len() == ts2.len());
    assert(ts1.len() == ts2.len());
    assert forall|o: u32| has_order(ts1, o) == has_order(ts2, o) by {
        if has_order(ts1, o) {
            let i = choose|i: int| 0 <= i < ts1.len() && (#[trigger] ts1[i]).order == o;
            assert(orders_of(ts1)[i] == o);
            assert(ts2[i].order == orders_of(ts2)[i]);
        }
        if has_order(ts2, o) {
            let i = choose|i: int| 0 <= i < ts2.len() && (#[trigger] ts2[i]).order == o;
            assert(orders_of(ts2)[i] == o);
            assert(ts1[i].order == orders_of(ts1)[i]);
        }
    }
}

/// In a sequence of tables with distinct orders, the index of an order is
/// the unique position carrying it.
proof fn lemma_order_index(ts: Seq<ChainTable>, o: u32)
    requires
        forall|i: int, j: int|
            0 <= i < j < ts.len() ==> (#[trigger] ts[i]).order != (#[trigger] ts[j]).order,
        has_order(ts, o),
    ensures
        0 <= order_index(ts, o) < ts.len(),
        ts[order_index(ts, o)].order == o,
        forall|i: int| 0 <= i < ts.len() && (#[trigger] ts[i]).order == o ==> i == order_index(
            ts,
            o,
        ),
{
    let ix = order_index(ts, o);
    assert(0 <= ix < ts.len() && ts[ix].order == o);
    assert forall|i: int|
        0 <= i < ts.len() && (#[trigger] ts[i]).order == o implies i == ix by {
        if i < ix {
            assert(ts[i].order != ts[ix].order);
        }
        if ix < i {
            assert(ts[ix].order != ts[i].order);
        }
    }
}

/// Replacing one table by another of the same order updates the store
/// model at exactly that order.
proof fn lemma_chains_model_update(ts: Seq<ChainTable>, ti: int, tab2: ChainTable)
    requires
        forall|i: int, j: int|
            0 <= i < j < ts.len() ==> (#[trigger] ts[i]).order != (#[trigger] ts[j]).order,
        0 <= ti < ts.len(),
        tab2.order == ts[ti].order,
    ensures
        chains_model(ts.update(ti, tab2)) == chains_model(ts).insert(ts[ti].order, tab2.model()),
{
    let g = ts[ti].order;
    let ts2 = ts.update(ti, tab2);
    assert forall|i: int, j: int|
        0 <= i < j < ts2.len() implies (#[trigger] ts2[i]).order != (#[trigger] ts2[j]).order by {
        assert(ts2[i].order == ts[i].order && ts2[j].order == ts[j].order);
    }
    assert(chains_model(ts2) =~= chains_model(ts).insert(g, tab2.model())) by {
        assert forall|o: u32| true implies chains_model(ts2)[o] == chains_model(ts).insert(
            g,
            tab2.model(),
        )[o] by {
            if o == g {
                assert(ts2[ti].order == o);
                assert(has_order(ts2, o));
                lemma_order_index(ts2, o);
                assert(order_index(ts2, o) == ti);
                assert(chains_model(ts2)[o] == tab2.model());
            } else {
                if has_order(ts, o) {
                    lemma_order_index(ts, o);
                    let i2 = order_index(ts, o);
                    assert(i2 != ti);
                    assert(ts2[i2].order == o);
                    assert(has_order(ts2, o));
                    lemma_order_index(ts2, o);
                    assert(order_index(ts2, o) == i2);
                    assert(ts2[i2] == ts[i2]);
                } else {
                    assert(!has_order(ts2, o)) by {
                        if has_order(ts2, o) {
                            let i2 = choose|i2: int|
                                0 <= i2 < ts2.len() && (#[trigger] ts2[i2]).order == o;
                            assert(ts[i2].order == o);
                        }
                    }
                }
            }
        }
    }
}

/// Every token of every document has an assigned order.
pub open spec fn all_assigned(ps: Seq<(String, u32)>, docs: Seq<Seq<char>>) -> bool {
    forall|k: int, i: int|
        0 <= k < docs.len() && 0 <= i < tokenize(docs[k]).len() ==> (#[trigger] lookup_order(
            ps,
            tokenize(docs[k])[i],
        )) is Some
}

/// Growing is reflexive.
proof fn lemma_grows_refl(m: ChainsModel)
    ensures
        model_grows(m, m),
{
}

/// Train the chain store from documents. For each position of each
/// document: look up the token's order `g`; if fewer than `g` tokens plus a
/// successor remain, skip the position; otherwise insert the successor
/// under the key of the `g` tokens starting there. Fails with
/// `MissingOrder` on the first token that has no assigned order, and with
/// `Store` on a backend failure; success is owed whenever every token has
/// an order and the backend does not fail, and on empty documents outright.
/// Whatever the outcome, the store only grows by whole merges: every
/// recorded successor stays recorded and no entry is partially updated.
#[verifier::loop_isolation(false)]
#[verifier::rlimit(60)]
pub fn train(chains: &mut ChainSet, a: &OrderAssignment, docs: &Vec<String>) -> (r: Result<
    (),
    ModelError,
>)
    requires
        old(chains).wf(),
        old(chains).covers(a.spec_entries()),
    ensures
        final(chains).wf(),
        final(chains).covers(a.spec_entries()),
        model_grows(old(chains).model(), final(chains).model()),
        docs@.len() == 0 ==> r matches Ok(_),
        match r {
            Ok(()) => final(chains).model() == train_texts(
                old(chains).model(),
                a.spec_entries(),
                seq_views(docs@),
                0,
            ) && all_assigned(a.spec_entries(), seq_views(docs@)),
            Err(e) => {
                ||| e matches ModelError::Store(_)
                ||| (e matches ModelError::MissingOrder(w) && lookup_order(a.spec_entries(), w@)
                    is None && exists|k: int|
                    0 <= k < docs@.len() && tokenize((#[trigger] docs@[k])@).contains(w@))
            },
        },
{
    let ghost m0 = chains.model();
    let ghost ps = a.spec_entries();
    let ghost dv = seq_views(docs@);
    let ghost orders0 = orders_of(chains.tables@);
    let mut k: usize = 0;
    while k < docs.len()
        invariant
            k <= docs@.len(),
            chains.wf(),
            orders_of(chains.tables@) == orders0,
            chains.covers(ps),
            model_grows(m0, chains.model()),
            train_texts(chains.model(), ps, dv, k as int) == train_texts(m0, ps, dv, 0),
            forall|k2: int, i2: int|
                0 <= k2 < k && 0 <= i2 < tokenize(dv[k2]).len() ==> (#[trigger] lookup_order(
                    ps,
                    tokenize(dv[k2])[i2],
                )) is Some,
        decreases docs@.len() - k,
    {
        let toks = create_corpus(docs[k].as_str());
        let ghost tv = tokenize(dv[k as int]);
        proof {
            assert(dv[k as int] == docs@[k as int]@);
            assert(seq_views(toks@) == tv);
        }
        let ghost mdoc = chains.model();
        let mut i: usize = 0;
        while i < toks.len()
            invariant
                i <= toks@.len(),
                chains.wf(),
                orders_of(chains.tables@) == orders0,
                chains.covers(ps),
                model_grows(m0, chains.model()),
                train_positions(chains.model(), ps, tv, i as int) == train_positions(
                    mdoc,
                    ps,
                    tv,
                    0,
                ),
                forall|i2: int|
                    0 <= i2 < i ==> (#[trigger] lookup_order(ps, tv[i2])) is Some,
            decreases toks@.len() - i,
        {
            let ghost mpre = chains.model();
            let w = &toks[i];
            proof {
                assert(tv[i as int] == w@);
            }
            match a.order_of(w) {
                None => {
                    proof {
                        assert(tv.contains(w@)) by {
                            assert(tv[i as int] == w@);
                        }
                    }
                    return Err(ModelError::MissingOrder(w.clone()));
                },
                Some(g) => {
                    if g as usize <= toks.len() - 1 - i {
                        let gu = g as usize;
                        let mut key: Vec<String> = Vec::new();
                        let mut j: usize = i;
                        proof {
                            assert(seq_views(key@) =~= tv.subrange(i as int, i as int));
                        }
                        while j < i + gu
                            invariant
                                i <= j <= i + gu,
                                i + gu < toks@.len(),
                                seq_views(key@) == tv.subrange(i as int, j as int),
                            decreases i + gu - j,
                        {
                            key.push(toks[j].clone());
                            proof {
                                assert(seq_views(key@) =~= tv.subrange(i as int, j + 1 as int))
                                    by {
                                    assert(seq_views(key@.drop_last()) =~= tv.subrange(
                                        i as int,
                                        j as int,
                                    ));
                                    assert(seq_views(key@) =~= seq_views(key@.drop_last()).push(
                                        key@.last()@,
                                    ));
                                    assert(tv.subrange(i as int, j + 1 as int) =~= tv.subrange(
                                        i as int,
                                        j as int,
                                    ).push(tv[j as int]));
                                }
                            }
                            j += 1;
                        }
                        let succ = &toks[i + gu];
                        proof {
                            crate::freq::lemma_lookup_order(ps, w@);
                            let jx = choose|jx: int|
                                0 <= jx < ps.len() && (#[trigger] ps[jx]).0@ == w@ && ps[jx].1
                                    == g;
                            assert(has_order(chains.tables@, g));
                        }
                        let ghost pre_tables = chains.tables@;
                        let res = chains.merge_at(g, &key, succ);
                        proof {
                            lemma_same_orders(pre_tables, chains.tables@);
                        }
                        let ghost kb = enc_tokens(tv.subrange(i as int, i + g));
                        proof {
                            lemma_merge_grows(mpre, g, kb, tv[i + g]);
                        }
                        match res {
                            Ok(()) => {
                                proof {
                                    assert(succ@ == tv[i + g]);
                                    assert(chains.model() == train_step(mpre, ps, tv, i as int));
                                    lemma_grows_trans(m0, mpre, chains.model());
                                    assert(train_positions(chains.model(), ps, tv, i + 1 as int)
                                        == train_positions(mdoc, ps, tv, 0)) by {
                                        assert(train_positions(mpre, ps, tv, i as int)
                                            == train_positions(
                                            train_step(mpre, ps, tv, i as int),
                                            ps,
                                            tv,
                                            i + 1,
                                        ));
                                    }
                                }
                            },
                            Err(e) => {
                                proof {
                                    assert(succ@ == tv[i + g]);
                                    if chains.model() == mpre {
                                        lemma_grows_refl(mpre);
                                    }
                                    lemma_grows_trans(m0, mpre, chains.model());
                                }
                                return Err(e);
                            },
                        }
                    } else {
                        proof {
                            assert(train_step(mpre, ps, tv, i as int) == mpre);
                            assert(train_positions(mpre, ps, tv, i as int) == train_positions(
                                mpre,
                                ps,
                                tv,
                                i + 1,
                            ));
                        }
                    }
                },
            }
            i += 1;
        }
        proof {
            assert(train_positions(chains.model(), ps, tv, toks@.len() as int)
                == chains.model());
            assert(train_texts(chains.model(), ps, dv, k + 1 as int) == train_texts(
                mdoc,
                ps,
                dv,
                k as int,
            ));
        }
        k += 1;
    }
    proof {
        assert(train_texts(chains.model(), ps, dv, docs@.len() as int) == chains.model());
        assert(all_assigned(ps, dv)) by {
            assert forall|k2: int, i2: int|
                0 <= k2 < dv.len() && 0 <= i2 < tokenize(dv[k2]).len() implies (
            #[trigger] lookup_order(ps, tokenize(dv[k2])[i2])) is Some by {}
        }
    }
    Ok(())
}

/// The tokens of a whole corpus: the token sequences of its documents,
/// concatenated in document order.
pub open spec fn corpus_tokens(docs: Seq<Seq<char>>) -> Seq<Seq<char>>
    decreases docs.len(),
{
    if docs.len() == 0 {
        Seq::empty()
    } else {
        corpus_tokens(docs.drop_last()) + tokenize(docs.last())
    }
}

/// Tokenize every document and string the tokens together.
#[verifier::loop_isolation(false)]
pub fn corpus_of_docs(docs: &Vec<String>) -> (r: Vec<String>)
    ensures
        seq_views(r@) == corpus_tokens(seq_views(docs@)),
{
    let ghost dv = seq_views(docs@);
    let mut toks: Vec<String> = Vec::new();
    let mut k: usize = 0;
    proof {
        assert(dv.take(0) =~= Seq::<Seq<char>>::empty());
        assert(seq_views(toks@) =~= corpus_tokens(dv.take(0)));
    }
    while k < docs.len()
        invariant
            k <= docs@.len(),
            seq_views(toks@) == corpus_tokens(dv.take(k as int)),
        decreases docs@.len() - k,
    {
        let mut doc_toks = create_corpus(docs[k].as_str());
        let ghost pre = toks@;
        let ghost dt = doc_toks@;
        toks.append(&mut doc_toks);
        proof {
            assert(toks@ == pre + dt);
            assert(dv.take(k + 1 as int).drop_last() =~= dv.take(k as int));
            assert(dv.take(k + 1 as int).last() == dv[k as int]);
            assert(seq_views(toks@) =~= corpus_tokens(dv.take(k + 1 as int))) by {
                assert(seq_views(pre + dt) =~= seq_views(pre) + seq_views(dt));
            }
        }
        k += 1;
    }
    proof {
        assert(dv.take(docs@.len() as int) =~= dv);
    }
    toks
}

/// The persisted form of an assignment suffix folded into a table model:
/// each token's UTF-8 bytes mapped to its order's big-endian bytes.
pub open spec fn spec_persist(
    m: Map<Seq<u8>, Seq<u8>>,
    ps: Seq<(String, u32)>,
    j: int,
) -> Map<Seq<u8>, Seq<u8>>
    decreases ps.len() - j,
{
    if 0 <= j < ps.len() {
        spec_persist(
            m.insert(crate::codec::utf8_of(ps[j].0@), crate::codec::be_bytes_of_u32(ps[j].1)),
            ps,
            j + 1,
        )
    } else {
        m
    }
}

/// Write every pair of the assignment into the persisted order table. A
/// backend failure leaves the table holding exactly a prefix of the run:
/// applying the remaining entries would still yield the full fold, so no
/// entry is ever partially or wrongly written.
#[verifier::loop_isolation(false)]
pub fn persist_assignment(gs: &mut GroupStore, a: &OrderAssignment) -> (r: Result<
    (),
    ModelError,
>)
    ensures
        match r {
            Ok(()) => final(gs).model() == spec_persist(old(gs).model(), a.spec_entries(), 0),
            Err(e) => e matches ModelError::Store(_) && exists|j: int|
                0 <= j <= a.spec_entries().len() && #[trigger] spec_persist(
                    final(gs).model(),
                    a.spec_entries(),
                    j,
                ) == spec_persist(old(gs).model(), a.spec_entries(), 0),
        },
{
    let ghost ps = a.spec_entries();
    let ghost m0 = gs.model();
    let pairs = a.entries();
    let mut j: usize = 0;
    while j < pairs.len()
        invariant
            j <= pairs@.len(),
            pairs@ == ps,
            spec_persist(gs.model(), ps, j as int) == spec_persist(m0, ps, 0),
        decreases pairs@.len() - j,
    {
        let ghost mpre = gs.model();
        match gs.set_order(&pairs[j].0, pairs[j].1) {
            Ok(()) => {
                proof {
                    assert(gs.model() == mpre.insert(
                        crate::codec::utf8_of(ps[j as int].0@),
                        crate::codec::be_bytes_of_u32(ps[j as int].1),
                    ));
                }
            },
            Err(e) => {
                proof {
                    if gs.model() == mpre {
                        assert(spec_persist(gs.model(), ps, j as int) == spec_persist(
                            m0,
                            ps,
                            0,
                        ));
                    } else {
                        assert(gs.model() == mpre.insert(
                            crate::codec::utf8_of(ps[j as int].0@),
                            crate::codec::be_bytes_of_u32(ps[j as int].1),
                        ));
                        assert(spec_persist(gs.model(), ps, j + 1 as int) == spec_persist(
                            m0,
                            ps,
                            0,
                        )) by {
                            assert(spec_persist(mpre, ps, j as int) == spec_persist(
                                gs.model(),
                                ps,
                                j + 1,
                            ));
                        }
                    }
                }
                return Err(e);
            },
        }
        j += 1;
    }
    Ok(())
}

/// Load the persisted order assignment back from the store. Fails if the
/// table's entries do not form a valid assignment.
pub fn load_assignment(gs: &GroupStore) -> (r: Result<OrderAssignment, ModelError>)
    ensures
        match r {
            Ok(a) => a.wf() && crate::store::group_entries_ok(gs.model(), a.spec_entries()),
            Err(e) => e matches ModelError::Store(_),
        },
{
    let pairs = match gs.load_entries() {
        Ok(pairs) => pairs,
        Err(e) => {
            return Err(e);
        },
    };
    match OrderAssignment::from_entries(pairs) {
        Some(a) => Ok(a),
        None => Err(ModelError::Store(String::from_str("invalid persisted assignment"))),
    }
}

/// The order table moved from `m0` to `m1` by persisting a prefix of some
/// valid assignment of this corpus: applying the remaining entries would
/// still yield the full fold, so only whole token-order records of this
/// corpus were written.
pub open spec fn persisted_prefix(
    m0: Map<Seq<u8>, Seq<u8>>,
    m1: Map<Seq<u8>, Seq<u8>>,
    tv: Seq<Seq<char>>,
    n: nat,
) -> bool {
    exists|a2: OrderAssignment, j: int|
        #![trigger spec_persist(m1, a2.spec_entries(), j)]
        {
            &&& a2.wf()
            &&& a2.keys() == firsts(tv)
            &&& (forall|k: int|
                0 <= k < a2.orders().len() ==> (#[trigger] a2.orders()[k]) as nat
                    == crate::freq::assigned_order(tv, n, a2.keys()[k]))
            &&& 0 <= j <= a2.spec_entries().len()
            &&& spec_persist(m1, a2.spec_entries(), j) == spec_persist(m0, a2.spec_entries(), 0)
        }
}

/// Compute the order assignment of a corpus and persist it: tokenize every
/// document, bucket the distinct tokens by global frequency, rank the
/// buckets, assign orders, and write the token-order table into `gs`.
///
/// On an empty corpus the run fails with `EmptyCorpus` before touching the
/// store, which stays unchanged; a `Store` failure can arise only on a
/// nonempty corpus.
///
/// Every run recomputes the assignment wholesale from its own corpus and
/// rewrites the persisted entry of every token it saw; persisted entries
/// of tokens outside this corpus are left as they were, so chain tables
/// trained under an earlier assignment may go stale.
pub fn groups(gs: &mut GroupStore, count: usize, docs: &Vec<String>) -> (r: Result<
    OrderAssignment,
    ModelError,
>)
    requires
        count >= 1,
        corpus_tokens(seq_views(docs@)).len() <= u32::MAX,
    ensures
        match r {
            Ok(a) => {
                let tv = corpus_tokens(seq_views(docs@));
                &&& tv.len() > 0
                &&& a.wf()
                &&& a.keys() == firsts(tv)
                &&& forall|j: int|
                    0 <= j < a.orders().len() ==> (#[trigger] a.orders()[j]) as nat
                        == crate::freq::assigned_order(tv, count as nat, a.keys()[j])
                &&& final(gs).model() == spec_persist(old(gs).model(), a.spec_entries(), 0)
            },
            Err(e) => {
                ||| (e matches ModelError::EmptyCorpus && corpus_tokens(
                    seq_views(docs@),
                ).len() == 0 && final(gs).model() == old(gs).model())
                ||| (e matches ModelError::Store(_) && corpus_tokens(
                    seq_views(docs@),
                ).len() > 0 && persisted_prefix(
                    old(gs).model(),
                    final(gs).model(),
                    corpus_tokens(seq_views(docs@)),
                    count as nat,
                ))
            },
        },
{
    let toks = corpus_of_docs(docs);
    let a = match crate::freq::compute_order_assignment(&toks, count) {
        Ok(a) => a,
        Err(e) => {
            return Err(e);
        },
    };
    let ghost m0 = gs.model();
    match persist_assignment(gs, &a) {
        Ok(()) => Ok(a),
        Err(e) => {
            proof {
                let tv = corpus_tokens(seq_views(docs@));
                let j = choose|j: int|
                    0 <= j <= a.spec_entries().len() && #[trigger] spec_persist(
                        gs.model(),
                        a.spec_entries(),
                        j,
                    ) == spec_persist(m0, a.spec_entries(), 0);
                assert(spec_persist(gs.model(), a.spec_entries(), j) == spec_persist(
                    m0,
                    a.spec_entries(),
                    0,
                ));
                assert(persisted_prefix(m0, gs.model(), tv, count as nat));
            }
            Err(e)
        },
    }
}

/// A store model defined at every order, as the model of a table sequence
/// always is.
pub open spec fn total_model(m: ChainsModel) -> bool {
    forall|o: u32| m.dom().contains(o)
}

/// Training preserves totality.
proof fn lemma_positions_total(m: ChainsModel, ps: Seq<(String, u32)>, tv: Seq<Seq<char>>, i: int)
    requires
        total_model(m),
    ensures
        total_model(train_positions(m, ps, tv, i)),
    decreases tv.len() - i,
{
    if 0 <= i < tv.len() {
        assert(total_model(train_step(m, ps, tv, i)));
        lemma_positions_total(train_step(m, ps, tv, i), ps, tv, i + 1);
    }
}

/// Training a corpus preserves totality.
proof fn lemma_texts_total(m: ChainsModel, ps: Seq<(String, u32)>, docs: Seq<Seq<char>>, k: int)
    requires
        total_model(m),
    ensures
        total_model(train_texts(m, ps, docs, k)),
    decreases docs.len() - k,
{
    if 0 <= k < docs.len() {
        lemma_positions_total(m, ps, tokenize(docs[k]), 0);
        lemma_texts_total(train_positions(m, ps, tokenize(docs[k]), 0), ps, docs, k + 1);
    }
}

/// Every token of every document occurs among the corpus tokens.
proof fn lemma_corpus_contains(docs: Seq<Seq<char>>, k: int)
    requires
        0 <= k < docs.len(),
    ensures
        forall|i: int|
            0 <= i < tokenize(docs[k]).len() ==> corpus_tokens(docs).contains(
                #[trigger] tokenize(docs[k])[i],
            ),
    decreases docs.len(),
{
    let front = corpus_tokens(docs.drop_last());
    assert(forall|j: int|
        0 <= j < docs.drop_last().len() ==> #[trigger] docs.drop_last()[j] == docs[j]);
    if k == docs.len() - 1 {
        assert forall|i: int|
            0 <= i < tokenize(docs[k]).len() implies corpus_tokens(docs).contains(
            #[trigger] tokenize(docs[k])[i],
        ) by {
            assert(corpus_tokens(docs)[front.len() + i] == tokenize(docs[k])[i]);
        }
    } else {
        lemma_corpus_contains(docs.drop_last(), k);
        assert forall|i: int|
            0 <= i < tokenize(docs[k]).len() implies corpus_tokens(docs).contains(
            #[trigger] tokenize(docs[k])[i],
        ) by {
            assert(front.contains(tokenize(docs.drop_last()[k])[i]));
            let j = front.lemma_contains_to_index(tokenize(docs[k])[i]);
            assert(corpus_tokens(docs)[j] == tokenize(docs[k])[i]);
        }
    }
}

/// One full training run: derive and persist the order assignment from
/// the documents, open one chain table per order, and train them. Because
/// the assignment is computed from the same documents, no token can be
/// missing an order: the run fails with `EmptyCorpus` exactly when the
/// documents hold no tokens (before touching the store), and otherwise
/// only on a store failure.
pub fn train_corpus(p: &mut Persistent, count: usize, docs: &Vec<String>) -> (r: Result<
    OrderAssignment,
    ModelError,
>)
    requires
        count >= 1,
        corpus_tokens(seq_views(docs@)).len() <= u32::MAX,
    ensures
        match r {
            Ok(a) => {
                let tv = corpus_tokens(seq_views(docs@));
                &&& tv.len() > 0
                &&& a.wf()
                &&& a.keys() == firsts(tv)
                &&& forall|j: int|
                    0 <= j < a.orders().len() ==> (#[trigger] a.orders()[j]) as nat
                        == crate::freq::assigned_order(tv, count as nat, a.keys()[j])
            },
            Err(e) => {
                ||| (e matches ModelError::EmptyCorpus && corpus_tokens(
                    seq_views(docs@),
                ).len() == 0)
                ||| (e matches ModelError::Store(_) && corpus_tokens(
                    seq_views(docs@),
                ).len() > 0)
            },
        },
{
    let probe = corpus_of_docs(docs);
    if probe.len() == 0 {
        return Err(ModelError::EmptyCorpus);
    }
    let mut gs = match p.group_store() {
        Ok(gs) => gs,
        Err(e) => {
            return Err(e);
        },
    };
    let a = match groups(&mut gs, count, docs) {
        Ok(a) => a,
        Err(e) => {
            return Err(e);
        },
    };
    let mut cs = match ChainSet::open_for(p, &a) {
        Ok(cs) => cs,
        Err(e) => {
            return Err(e);
        },
    };
    match train(&mut cs, &a, docs) {
        Ok(()) => Ok(a),
        Err(e) => {
            proof {
                let dv = seq_views(docs@);
                let tv = corpus_tokens(dv);
                let ps = a.spec_entries();
                match &e {
                    ModelError::MissingOrder(w) => {
                        let kx = choose|kx: int|
                            0 <= kx < docs@.len() && tokenize((#[trigger] docs@[kx])@).contains(
                                w@,
                            );
                        lemma_corpus_contains(dv, kx);
                        assert(tv.contains(w@)) by {
                            assert(dv[kx] == docs@[kx]@);
                            let ix = tokenize(dv[kx]).lemma_contains_to_index(w@);
                        }
                        crate::freq::lemma_firsts_props(tv);
                        assert(firsts(tv).contains(w@));
                        let jx = firsts(tv).lemma_contains_to_index(w@);
                        assert(a.keys()[jx] == w@);
                        assert(ps[jx].0@ == w@);
                        crate::freq::lemma_lookup_order(ps, w@);
                        assert(false);
                    },
                    _ => {},
                }
            }
            Err(e)
        },
    }
}

/// One store model grows into another: every recorded entry and every
/// recorded successor stays recorded.
pub open spec fn model_grows(m1: ChainsModel, m2: ChainsModel) -> bool {
    &&& forall|o: u32, kb: Seq<u8>|
        #[trigger] m1[o].dom().contains(kb) ==> m2[o].dom().contains(kb)
    &&& forall|o: u32, kb: Seq<u8>, w: Seq<char>|
        m1[o].dom().contains(kb) && #[trigger] m1[o][kb].contains(w) ==> m2[o].dom().contains(kb)
            && m2[o][kb].contains(w)
}

/// Position `i` of a token sequence is already recorded in the model.
pub open spec fn trained_in(
    m: ChainsModel,
    ps: Seq<(String, u32)>,
    tv: Seq<Seq<char>>,
    i: int,
) -> bool {
    match lookup_order(ps, tv[i]) {
        Some(g) => i + g < tv.len() ==> {
            let kb = enc_tokens(tv.subrange(i, i + g));
            &&& m[g].dom().contains(kb)
            &&& m[g][kb].contains(tv[i + g])
        },
        None => true,
    }
}

/// Growing is transitive.
proof fn lemma_grows_trans(m1: ChainsModel, m2: ChainsModel, m3: ChainsModel)
    requires
        model_grows(m1, m2),
        model_grows(m2, m3),
    ensures
        model_grows(m1, m3),
{
}

/// Merging grows the model and records the merged successor.
proof fn lemma_merge_grows(m: ChainsModel, o: u32, kb: Seq<u8>, w: Seq<char>)
    ensures
        model_grows(m, spec_merge_at(m, o, kb, w)),
        spec_merge_at(m, o, kb, w)[o].dom().contains(kb),
        spec_merge_at(m, o, kb, w)[o][kb].contains(w),
{
    let l = if m[o].dom().contains(kb) {
        m[o][kb]
    } else {
        Seq::empty()
    };
    let l2 = merged_list(l, w);
    assert(l2.contains(w)) by {
        if !l.contains(w) {
            assert(l.push(w)[l.len() as int] == w);
        }
    }
    assert(forall|w2: Seq<char>| l.contains(w2) ==> l2.contains(w2)) by {
        if !l.contains(w) {
            assert forall|w2: Seq<char>| l.contains(w2) implies l2.contains(w2) by {
                if l.contains(w2) {
                    let ix = l.lemma_contains_to_index(w2);
                    assert(l2[ix] == w2);
                }
            }
        }
    }
}

/// One training step grows the model.
proof fn lemma_step_grows(m: ChainsModel, ps: Seq<(String, u32)>, tv: Seq<Seq<char>>, i: int)
    ensures
        model_grows(m, train_step(m, ps, tv, i)),
{
    match lookup_order(ps, tv[i]) {
        Some(g) => {
            if i + g < tv.len() {
                lemma_merge_grows(m, g, enc_tokens(tv.subrange(i, i + g)), tv[i + g]);
            }
        },
        None => {},
    }
}

/// A training pass grows the model.
proof fn lemma_positions_grows(m: ChainsModel, ps: Seq<(String, u32)>, tv: Seq<Seq<char>>, i: int)
    ensures
        model_grows(m, train_positions(m, ps, tv, i)),
    decreases tv.len() - i,
{
    if 0 <= i < tv.len() {
        let m1 = train_step(m, ps, tv, i);
        lemma_step_grows(m, ps, tv, i);
        lemma_positions_grows(m1, ps, tv, i + 1);
        lemma_grows_trans(m, m1, train_positions(m1, ps, tv, i + 1));
    }
}

/// Training a corpus grows the model.
proof fn lemma_texts_grows(m: ChainsModel, ps: Seq<(String, u32)>, docs: Seq<Seq<char>>, k: int)
    ensures
        model_grows(m, train_texts(m, ps, docs, k)),
    decreases docs.len() - k,
{
    if 0 <= k < docs.len() {
        let m1 = train_positions(m, ps, tokenize(docs[k]), 0);
        lemma_positions_grows(m, ps, tokenize(docs[k]), 0);
        lemma_texts_grows(m1, ps, docs, k + 1);
        lemma_grows_trans(m, m1, train_texts(m1, ps, docs, k + 1));
    }
}

/// A recorded position stays recorded as the model grows.
proof fn lemma_trained_monotone(
    m1: ChainsModel,
    m2: ChainsModel,
    ps: Seq<(String, u32)>,
    tv: Seq<Seq<char>>,
    i: int,
)
    requires
        trained_in(m1, ps, tv, i),
        model_grows(m1, m2),
    ensures
        trained_in(m2, ps, tv, i),
{
}

/// After a training pass, every position of the passed sequence is
/// recorded.
proof fn lemma_positions_covers(m: ChainsModel, ps: Seq<(String, u32)>, tv: Seq<Seq<char>>, i: int)
    requires
        0 <= i,
    ensures
        forall|j: int|
            i <= j < tv.len() ==> trained_in(train_positions(m, ps, tv, i), ps, tv, j),
    decreases tv.len() - i,
{
    if 0 <= i < tv.len() {
        let m1 = train_step(m, ps, tv, i);
        let mr = train_positions(m1, ps, tv, i + 1);
        lemma_positions_covers(m1, ps, tv, i + 1);
        assert(trained_in(m1, ps, tv, i)) by {
            match lookup_order(ps, tv[i]) {
                Some(g) => {
                    if i + g < tv.len() {
                        lemma_merge_grows(m, g, enc_tokens(tv.subrange(i, i + g)), tv[i + g]);
                    }
                },
                None => {},
            }
        }
        lemma_positions_grows(m1, ps, tv, i + 1);
        lemma_trained_monotone(m1, mr, ps, tv, i);
        assert(train_positions(m, ps, tv, i) == mr);
        assert forall|j: int|
            i <= j < tv.len() implies trained_in(train_positions(m, ps, tv, i), ps, tv, j) by {
            if j == i {
                assert(trained_in(mr, ps, tv, i));
            } else {
                assert(trained_in(mr, ps, tv, j));
            }
        }
    }
}

/// A recorded position is left unchanged by its training step.
proof fn lemma_step_trained_id(m: ChainsModel, ps: Seq<(String, u32)>, tv: Seq<Seq<char>>, i: int)
    requires
        total_model(m),
        trained_in(m, ps, tv, i),
    ensures
        train_step(m, ps, tv, i) == m,
{
    match lookup_order(ps, tv[i]) {
        Some(g) => {
            if i + g < tv.len() {
                let kb = enc_tokens(tv.subrange(i, i + g));
                let w = tv[i + g];
                assert(m[g].dom().contains(kb) && m[g][kb].contains(w));
                assert(merged_list(m[g][kb], w) == m[g][kb]);
                assert(spec_merge(m[g], kb, w) =~= m[g]);
                assert(m.dom().contains(g));
                assert(spec_merge_at(m, g, kb, w) =~= m);
            }
        },
        None => {},
    }
}

/// A pass over fully recorded positions changes nothing.
proof fn lemma_positions_trained_id(
    m: ChainsModel,
    ps: Seq<(String, u32)>,
    tv: Seq<Seq<char>>,
    i: int,
)
    requires
        total_model(m),
        forall|j: int| i <= j < tv.len() ==> trained_in(m, ps, tv, j),
    ensures
        train_positions(m, ps, tv, i) == m,
    decreases tv.len() - i,
{
    if 0 <= i < tv.len() {
        lemma_step_trained_id(m, ps, tv, i);
        lemma_positions_trained_id(m, ps, tv, i + 1);
    }
}

/// After training a corpus, every position of every document is recorded.
proof fn lemma_texts_covers(m: ChainsModel, ps: Seq<(String, u32)>, docs: Seq<Seq<char>>, k: int)
    requires
        0 <= k,
    ensures
        forall|k2: int, i: int|
            k <= k2 < docs.len() && 0 <= i < tokenize(docs[k2]).len() ==> #[trigger] trained_in(
                train_texts(m, ps, docs, k),
                ps,
                tokenize(docs[k2]),
                i,
            ),
    decreases docs.len() - k,
{
    if 0 <= k < docs.len() {
        let tv = tokenize(docs[k]);
        let m1 = train_positions(m, ps, tv, 0);
        let mr = train_texts(m1, ps, docs, k + 1);
        lemma_texts_covers(m1, ps, docs, k + 1);
        lemma_positions_covers(m, ps, tv, 0);
        lemma_texts_grows(m1, ps, docs, k + 1);
        assert forall|k2: int, i: int|
            k <= k2 < docs.len() && 0 <= i < tokenize(docs[k2]).len() implies #[trigger] trained_in(
            mr,
            ps,
            tokenize(docs[k2]),
            i,
        ) by {
            if k2 == k {
                lemma_trained_monotone(m1, mr, ps, tv, i);
            }
        }
        assert(train_texts(m, ps, docs, k) == mr);
    }
}

/// Training a corpus over fully recorded documents changes nothing.
proof fn lemma_texts_trained_id(
    m: ChainsModel,
    ps: Seq<(String, u32)>,
    docs: Seq<Seq<char>>,
    k: int,
)
    requires
        total_model(m),
        forall|k2: int, i: int|
            k <= k2 < docs.len() && 0 <= i < tokenize(docs[k2]).len() ==> #[trigger] trained_in(
                m,
                ps,
                tokenize(docs[k2]),
                i,
            ),
    ensures
        train_texts(m, ps, docs, k) == m,
    decreases docs.len() - k,
{
    if 0 <= k < docs.len() {
        let tv = tokenize(docs[k]);
        assert forall|j: int| 0 <= j < tv.len() implies trained_in(m, ps, tv, j) by {
            assert(trained_in(m, ps, tokenize(docs[k]), j));
        }
        lemma_positions_trained_id(m, ps, tv, 0);
        lemma_texts_trained_id(m, ps, docs, k + 1);
    }
}

/// Trainer consistency: training a second time on the same documents
/// leaves the chain store's successor sets unchanged.
pub proof fn lemma_train_idempotent(m: ChainsModel, ps: Seq<(String, u32)>, docs: Seq<Seq<char>>)
    requires
        total_model(m),
    ensures
        train_texts(train_texts(m, ps, docs, 0), ps, docs, 0) == train_texts(m, ps, docs, 0),
{
    let m1 = train_texts(m, ps, docs, 0);
    lemma_texts_total(m, ps, docs, 0);
    lemma_texts_covers(m, ps, docs, 0);
    lemma_texts_trained_id(m1, ps, docs, 0);
}

} // verus!
