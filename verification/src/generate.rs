//! Generator: samples the chain store to produce a token stream of a
//! requested length, using a bounded lookahead stack and order fallback.
//!
//! The stack holds recent tokens in chronological order. Each round either
//! flushes the oldest token to the output (when the stack has outgrown the
//! largest order, when no table or no entry matches, or when the matched
//! successor set is empty), reseeds an empty stack from a random stored
//! entry after closing the sentence with a mark on the last emitted word,
//! or grows the stack by a matched successor set. Only flushed tokens
//! count toward the requested length; the sentence marks ride on them.

use vstd::prelude::*;
use vstd::string::StringExecFns;
use crate::error::ModelError;
use crate::store::ChainTable;
use crate::token::seq_views;
use crate::train::ChainSet;

verus! {

#[verifier::external_type_specification]
#[verifier::external_body]
pub struct ExStdRng(rand::rngs::StdRng);

/// A seedable source of uniform random indices.
pub struct Sampler {
    pub rng: rand::rngs::StdRng,
}

/// Relies on rand::SeedableRng::seed_from_u64 for StdRng: builds a
/// generator from the seed.
#[verifier::external_body]
fn rng_from_seed(seed: u64) -> (r: rand::rngs::StdRng) {
    rand::SeedableRng::seed_from_u64(seed)
}

/// Relies on rand::Rng::gen_range over `0..n`: a value below `n`.
#[verifier::external_body]
fn rng_below(rng: &mut rand::rngs::StdRng, n: usize) -> (r: usize)
    requires
        n > 0,
    ensures
        r < n,
{
    rand::Rng::gen_range(rng, 0..n)
}

impl Sampler {
    /// A sampler with a reproducible seed.
    pub fn from_seed(seed: u64) -> (r: Sampler) {
        Sampler { rng: rng_from_seed(seed) }
    }

    /// A uniform index below `n`.
    pub fn below(&mut self, n: usize) -> (r: usize)
        requires
            n > 0,
        ensures
            r < n,
    {
        rng_below(&mut self.rng, n)
    }
}

/// Remaining growth room of the lookahead stack before a flush is forced.
spec fn stack_gas(largest: int, depth: int) -> int {
    if depth <= largest + 2 {
        largest + 2 - depth
    } else {
        0
    }
}

/// A token that occurs in the chain store: a member of some stored
/// successor set, or a component of some decodable stored chain key.
pub open spec fn from_store(ts: Seq<ChainTable>, t: Seq<char>) -> bool {
    exists|i: int, kb: Seq<u8>|
        0 <= i < ts.len() && #[trigger] ts[i].model().dom().contains(kb) && (
        ts[i].model()[kb].contains(t) || (match crate::codec::dec_tokens(kb) {
            Some(kt) => kt.contains(t),
            None => false,
        }))
}

/// A generated output element: a store token, either bare or carrying the
/// sentence mark that closed a sentence right after it.
pub open spec fn output_token(ts: Seq<ChainTable>, x: Seq<char>) -> bool {
    exists|t: Seq<char>| #[trigger] from_store(ts, t) && (x == t || x == t + seq!['.'])
}

/// Every token of a seed-pool entry occurs in the chain store.
pub open spec fn entry_from_store(ts: Seq<ChainTable>, e: (Vec<String>, Vec<String>)) -> bool {
    &&& forall|q: int| 0 <= q < e.0@.len() ==> from_store(ts, (#[trigger] e.0@[q])@)
    &&& forall|q: int| 0 <= q < e.1@.len() ==> from_store(ts, (#[trigger] e.1@[q])@)
}

/// A table model holds at least one entry that can seed generation: a
/// decodable key whose tokens and successors are not both empty.
pub open spec fn seedable(m: Map<Seq<u8>, Seq<Seq<char>>>) -> bool {
    exists|kb: Seq<u8>|
        #![trigger m.dom().contains(kb)]
        m.dom().contains(kb) && (match crate::codec::dec_tokens(kb) {
            Some(kt) => kt.len() + m[kb].len() > 0,
            None => false,
        })
}

/// Generate at least `target_length` tokens by walking the chain store
/// with randomized seeding and order fallback. Every returned element is a
/// token of the store, bare or with an appended sentence mark where the
/// stack emptied right after it, and the output always ends on a bare
/// token; a missing table or absent key never fails, it only degrades by
/// flushing one token. Fails with `EmptyStore` exactly when no table
/// holds an entry to seed from, and with `Store` on a backend failure.
#[verifier::loop_isolation(false)]
#[verifier::rlimit(100)]
#[verifier::spinoff_prover]
pub fn generate(chains: &ChainSet, sampler: &mut Sampler, target_length: usize) -> (r: Result<
    Vec<String>,
    ModelError,
>)
    requires
        chains.wf(),
    ensures
        match r {
            Ok(out) => {
                &&& out@.len() >= target_length
                &&& out@.len() > 0
                &&& from_store(chains.tables@, out@[out@.len() - 1]@)
                &&& forall|j: int|
                    0 <= j < out@.len() ==> output_token(chains.tables@, (#[trigger] out@[j])@)
            },
            Err(e) => e matches ModelError::Store(_) || e matches ModelError::EmptyStore,
        },
        (exists|i: int|
            0 <= i < chains.tables@.len() && seedable(
                (#[trigger] chains.tables@[i]).model(),
            )) ==> !(r matches Err(ModelError::EmptyStore)),
        r matches Err(ModelError::EmptyStore) ==> forall|i: int|
            0 <= i < chains.tables@.len() ==> !seedable((#[trigger] chains.tables@[i]).model()),
{
    // Collect the seed pools: for each table, its usable entries.
    let mut pools: Vec<Vec<(Vec<String>, Vec<String>)>> = Vec::new();
    let mut largest: usize = 0;
    let mut ti: usize = 0;
    while ti < chains.tables.len()
        invariant
            ti <= chains.tables@.len(),
            chains.wf(),
            forall|p: int, e: int|
                #![trigger pools@[p]@[e]]
                0 <= p < pools@.len() && 0 <= e < pools@[p]@.len() ==> pools@[p]@[e].0@.len()
                    + pools@[p]@[e].1@.len() >= 1 && entry_from_store(
                    chains.tables@,
                    pools@[p]@[e],
                ),
            forall|p: int| 0 <= p < pools@.len() ==> (#[trigger] pools@[p])@.len() >= 1,
            (exists|i: int|
                0 <= i < ti && seedable((#[trigger] chains.tables@[i]).model()))
                ==> pools@.len() >= 1,
        decreases chains.tables@.len() - ti,
    {
        let tab = &chains.tables[ti];
        if tab.order as usize > largest {
            largest = tab.order as usize;
        }
        let items = match tab.entries() {
            Ok(items) => items,
            Err(e) => {
                return Err(e);
            },
        };
        let ghost m = chains.tables@[ti as int].model();
        let mut pool: Vec<(Vec<String>, Vec<String>)> = Vec::new();
        let mut j: usize = 0;
        while j < items.len()
            invariant
                j <= items@.len(),
                forall|e: int|
                    0 <= e < pool@.len() ==> (#[trigger] pool@[e]).0@.len() + pool@[e].1@.len()
                        >= 1 && entry_from_store(chains.tables@, pool@[e]),
                seedable(m) && crate::store::decoded_entries_ok(m, items@) ==> pool@.len() >= 1
                    || exists|e: int|
                    j <= e < items@.len() && (#[trigger] items@[e]).0@.len() + items@[e].1@.len()
                        >= 1,
            decreases items@.len() - j,
        {
            if items[j].0.len() > 0 || items[j].1.len() > 0 {
                proof {
                    assert(crate::store::entry_listed(m, items@, j as int));
                    let kb = choose|kb: Seq<u8>|
                        crate::store::entry_matches(m, kb, items@[j as int]);
                    assert(entry_from_store(chains.tables@, items@[j as int])) by {
                        let e = items@[j as int];
                        assert forall|q: int| 0 <= q < e.0@.len() implies from_store(
                            chains.tables@,
                            (#[trigger] e.0@[q])@,
                        ) by {
                            assert(seq_views(e.0@)[q] == e.0@[q]@);
                            assert(crate::codec::dec_tokens(kb) == Some(seq_views(e.0@)));
                            assert(seq_views(e.0@).contains(e.0@[q]@));
                        }
                        assert forall|q: int| 0 <= q < e.1@.len() implies from_store(
                            chains.tables@,
                            (#[trigger] e.1@[q])@,
                        ) by {
                            assert(seq_views(e.1@)[q] == e.1@[q]@);
                            assert(m[kb] == seq_views(e.1@));
                            assert(m[kb].contains(e.1@[q]@));
                        }
                    }
                }
                let key = items[j].0.clone();
                let succ = items[j].1.clone();
                pool.push((key, succ));
            }
            j += 1;
        }
        proof {
            if seedable(m) {
                let kb = choose|kb: Seq<u8>|
                    #![trigger m.dom().contains(kb)]
                    m.dom().contains(kb) && (match crate::codec::dec_tokens(kb) {
                        Some(kt) => kt.len() + m[kb].len() > 0,
                        None => false,
                    });
                assert(crate::codec::dec_tokens(kb) is Some);
                let e0 = choose|e0: int|
                    0 <= e0 < items@.len() && crate::store::entry_matches(
                        m,
                        kb,
                        #[trigger] items@[e0],
                    );
                assert(items@[e0].0@.len() + items@[e0].1@.len() >= 1) by {
                    assert(seq_views(items@[e0].0@).len() == items@[e0].0@.len());
                    assert(seq_views(items@[e0].1@).len() == items@[e0].1@.len());
                }
                assert(pool@.len() >= 1);
            }
        }
        if pool.len() > 0 {
            pools.push(pool);
        }
        ti += 1;
    }
    if pools.len() == 0 {
        proof {
            assert forall|i: int| 0 <= i < chains.tables@.len() implies !seedable(
                (#[trigger] chains.tables@[i]).model(),
            ) by {
                if seedable(chains.tables@[i].model()) {
                    assert(pools@.len() >= 1);
                }
            }
        }
        return Err(ModelError::EmptyStore);
    }
    let mut out: Vec<String> = Vec::new();
    let mut stack: Vec<String> = Vec::new();
    // SEED once at the start.
    let ghost empty_stack = stack@;
    seed_stack(&pools, sampler, &mut stack);
    proof {
        lemma_seeded_from_store(chains.tables@, pools@, empty_stack, stack@);
    }
    while out.len() < target_length
        invariant
            chains.wf(),
            forall|p: int, e: int|
                #![trigger pools@[p]@[e]]
                0 <= p < pools@.len() && 0 <= e < pools@[p]@.len() ==> pools@[p]@[e].0@.len()
                    + pools@[p]@[e].1@.len() >= 1 && entry_from_store(
                    chains.tables@,
                    pools@[p]@[e],
                ),
            forall|p: int| 0 <= p < pools@.len() ==> (#[trigger] pools@[p])@.len() >= 1,
            pools@.len() >= 1,
            forall|j: int|
                0 <= j < out@.len() ==> output_token(chains.tables@, (#[trigger] out@[j])@),
            forall|j: int|
                0 <= j < stack@.len() ==> from_store(chains.tables@, (#[trigger] stack@[j])@),
            stack@.len() == 0 ==> out@.len() > 0 && from_store(
                chains.tables@,
                out@[out@.len() - 1]@,
            ),
            out@.len() >= target_length && out@.len() > 0 ==> from_store(
                chains.tables@,
                out@[out@.len() - 1]@,
            ),
        decreases target_length - out@.len(), stack_gas(largest as int, stack@.len() as int),
    {
        if stack.len() > largest {
            // FLUSH: emit the oldest token.
            flush_one(chains, &mut stack, &mut out);
        } else if stack.len() == 0 {
            // The stack ran dry: close the sentence on the last emitted
            // word and reseed.
            let mut lastw = out.pop().unwrap();
            let ghost t = lastw@;
            lastw.append(".");
            proof {
                reveal_strlit(".");
                assert("."@ =~= seq!['.']);
                assert(lastw@ == t + seq!['.']);
            }
            let ghost pre_out = out@;
            out.push(lastw);
            proof {
                assert forall|j: int| 0 <= j < out@.len() implies output_token(
                    chains.tables@,
                    (#[trigger] out@[j])@,
                ) by {
                    if j < out@.len() - 1 {
                        assert(out@[j] == pre_out[j]);
                    } else {
                        assert(from_store(chains.tables@, t));
                    }
                }
            }
            let ghost pre_stack = stack@;
            seed_stack(&pools, sampler, &mut stack);
            proof {
                lemma_seeded_from_store(chains.tables@, pools@, pre_stack, stack@);
            }
        } else {
            // GROW: look up the successors of the whole stack.
            let k32 = stack.len() as u32;
            let ghost pre_stack = stack@;
            let mut ti2: usize = 0;
            while ti2 < chains.tables.len() && chains.tables[ti2].order != k32
                invariant
                    ti2 <= chains.tables@.len(),
                decreases chains.tables@.len() - ti2,
            {
                ti2 += 1;
            }
            if ti2 < chains.tables.len() {
                match chains.tables[ti2].get(&stack) {
                    Ok(Some(succs)) => {
                        if succs.len() > 0 {
                            // Push every successor onto the stack.
                            let ghost m = chains.tables@[ti2 as int].model();
                            let ghost kbv = crate::codec::enc_tokens(seq_views(pre_stack));
                            proof {
                                assert(m.dom().contains(kbv));
                                assert(seq_views(succs@) == m[kbv]);
                            }
                            let mut q: usize = 0;
                            while q < succs.len()
                                invariant
                                    q <= succs@.len(),
                                    stack@.len() == pre_stack.len() + q,
                                    forall|j: int|
                                        0 <= j < stack@.len() ==> from_store(
                                            chains.tables@,
                                            (#[trigger] stack@[j])@,
                                        ),
                                decreases succs@.len() - q,
                            {
                                let w = succs[q].clone();
                                proof {
                                    assert(m[kbv].contains(succs@[q as int]@)) by {
                                        assert(seq_views(succs@)[q as int] == succs@[q as int]@);
                                    }
                                    assert(from_store(chains.tables@, succs@[q as int]@));
                                }
                                let ghost pre = stack@;
                                stack.push(w);
                                proof {
                                    assert forall|j: int| 0 <= j < stack@.len() implies from_store(
                                        chains.tables@,
                                        (#[trigger] stack@[j])@,
                                    ) by {
                                        if j < pre.len() {
                                            assert(stack@[j] == pre[j]);
                                        }
                                    }
                                }
                                q += 1;
                            }
                        } else {
                            // Degrade: nothing observed, emit the oldest.
                            flush_one(chains, &mut stack, &mut out);
                        }
                    },
                    Ok(None) => {
                        // Degrade: no chain under this key.
                        flush_one(chains, &mut stack, &mut out);
                    },
                    Err(e) => {
                        return Err(e);
                    },
                }
            } else {
                // Degrade: no table for this stack depth.
                flush_one(chains, &mut stack, &mut out);
            }
        }
    }
    // TERMINATE: flush the remaining stack.
    let ghost done = out@.len();
    while stack.len() > 0
        invariant
            out@.len() >= done,
            forall|j: int|
                0 <= j < out@.len() ==> output_token(chains.tables@, (#[trigger] out@[j])@),
            forall|j: int|
                0 <= j < stack@.len() ==> from_store(chains.tables@, (#[trigger] stack@[j])@),
            stack@.len() > 0 || (out@.len() > 0 && from_store(
                chains.tables@,
                out@[out@.len() - 1]@,
            )),
        decreases stack@.len(),
    {
        flush_one(chains, &mut stack, &mut out);
    }
    Ok(out)
}

/// Move the oldest stack token to the output.
fn flush_one(chains: &ChainSet, stack: &mut Vec<String>, out: &mut Vec<String>)
    requires
        old(stack)@.len() > 0,
        forall|j: int|
            0 <= j < old(stack)@.len() ==> from_store(
                chains.tables@,
                (#[trigger] old(stack)@[j])@,
            ),
        forall|j: int|
            0 <= j < old(out)@.len() ==> output_token(
                chains.tables@,
                (#[trigger] old(out)@[j])@,
            ),
    ensures
        final(stack)@ == old(stack)@.skip(1),
        final(out)@.len() == old(out)@.len() + 1,
        forall|j: int|
            0 <= j < final(stack)@.len() ==> from_store(
                chains.tables@,
                (#[trigger] final(stack)@[j])@,
            ),
        forall|j: int|
            0 <= j < final(out)@.len() ==> output_token(
                chains.tables@,
                (#[trigger] final(out)@[j])@,
            ),
        from_store(chains.tables@, final(out)@[final(out)@.len() - 1]@),
{
    let ghost pre_stack = stack@;
    let ghost pre_out = out@;
    let w = stack.remove(0);
    out.push(w);
    proof {
        assert(stack@ =~= pre_stack.skip(1));
        assert(out@[out@.len() - 1] == pre_stack[0]);
        assert(from_store(chains.tables@, pre_stack[0]@));
        assert forall|j: int| 0 <= j < stack@.len() implies from_store(
            chains.tables@,
            (#[trigger] stack@[j])@,
        ) by {
            assert(stack@[j] == pre_stack[j + 1]);
        }
        assert forall|j: int| 0 <= j < out@.len() implies output_token(
            chains.tables@,
            (#[trigger] out@[j])@,
        ) by {
            if j < out@.len() - 1 {
                assert(out@[j] == pre_out[j]);
            }
        }
    }
}

/// Tokens pushed from a seed pool occur in the chain store.
proof fn lemma_seeded_from_store(
    ts: Seq<ChainTable>,
    pools: Seq<Vec<(Vec<String>, Vec<String>)>>,
    pre: Seq<String>,
    post: Seq<String>,
)
    requires
        forall|p: int, e: int|
            #![trigger pools[p]@[e]]
            0 <= p < pools.len() && 0 <= e < pools[p]@.len() ==> entry_from_store(
                ts,
                pools[p]@[e],
            ),
        forall|j: int| 0 <= j < pre.len() ==> from_store(ts, (#[trigger] pre[j])@),
        exists|p: int, e: int|
            #![trigger pools[p]@[e]]
            0 <= p < pools.len() && 0 <= e < pools[p]@.len() && seq_views(post) == seq_views(pre)
                + seq_views(pools[p]@[e].0@) + seq_views(pools[p]@[e].1@),
    ensures
        forall|j: int| 0 <= j < post.len() ==> from_store(ts, (#[trigger] post[j])@),
{
    let (p, e) = choose|p: int, e: int|
        0 <= p < pools.len() && 0 <= e < pools[p]@.len() && seq_views(post) == seq_views(pre)
            + seq_views(pools[p]@[e].0@) + seq_views(pools[p]@[e].1@);
    let key = pools[p]@[e].0;
    let succ = pools[p]@[e].1;
    assert(entry_from_store(ts, pools[p]@[e]));
    assert(seq_views(post).len() == post.len());
    assert(seq_views(pre).len() == pre.len());
    assert(seq_views(key@).len() == key@.len());
    assert(seq_views(succ@).len() == succ@.len());
    assert(post.len() == pre.len() + key@.len() + succ@.len());
    assert forall|j: int| 0 <= j < post.len() implies from_store(ts, (#[trigger] post[j])@) by {
        assert(seq_views(post)[j] == post[j]@);
        if j < pre.len() {
            assert(seq_views(post)[j] == seq_views(pre)[j]);
            assert(seq_views(pre)[j] == pre[j]@);
        } else if j < pre.len() + key@.len() {
            assert(seq_views(post)[j] == seq_views(key@)[j - pre.len()]);
            assert(seq_views(key@)[j - pre.len()] == key@[j - pre.len()]@);
        } else {
            assert(seq_views(post)[j] == seq_views(succ@)[j - pre.len() - key@.len()]);
            assert(seq_views(succ@)[j - pre.len() - key@.len()] == succ@[j - pre.len()
                - key@.len()]@);
        }
    }
}

/// Sample a text of at least `target_length` tokens from the open chain
/// tables and join it with single spaces; the token stream carries the
/// generator's guarantees and never ends on a marked token.
pub fn generate_text(chains: &ChainSet, sampler: &mut Sampler, target_length: usize) -> (r:
    Result<String, ModelError>)
    requires
        chains.wf(),
    ensures
        match r {
            Ok(s) => exists|ts: Seq<Seq<char>>|
                s@ == crate::token::join_tokens(ts) && ts.len() >= target_length && ts.len() > 0
                    && from_store(chains.tables@, ts[ts.len() - 1]) && (forall|j: int|
                    0 <= j < ts.len() ==> output_token(chains.tables@, #[trigger] ts[j])),
            Err(e) => e matches ModelError::Store(_) || e matches ModelError::EmptyStore,
        },
        (exists|i: int|
            0 <= i < chains.tables@.len() && seedable(
                (#[trigger] chains.tables@[i]).model(),
            )) ==> !(r matches Err(ModelError::EmptyStore)),
        r matches Err(ModelError::EmptyStore) ==> forall|i: int|
            0 <= i < chains.tables@.len() ==> !seedable((#[trigger] chains.tables@[i]).model()),
{
    let toks = match generate(chains, sampler, target_length) {
        Ok(toks) => toks,
        Err(e) => {
            return Err(e);
        },
    };
    let text = crate::token::tokens_to_text(&toks);
    proof {
        let ts = seq_views(toks@);
        assert(text@ == crate::token::join_tokens(ts) && ts.len() >= target_length);
        assert(ts.len() > 0);
        assert(ts[ts.len() - 1] == toks@[toks@.len() - 1]@);
        assert forall|j: int| 0 <= j < ts.len() implies output_token(
            chains.tables@,
            #[trigger] ts[j],
        ) by {
            assert(ts[j] == toks@[j]@);
        }
    }
    Ok(text)
}

/// Pick a random table pool, then a random entry of it, and push its key
/// tokens and then its successor tokens onto the stack.
#[verifier::loop_isolation(false)]
fn seed_stack(
    pools: &Vec<Vec<(Vec<String>, Vec<String>)>>,
    sampler: &mut Sampler,
    stack: &mut Vec<String>,
)
    requires
        pools@.len() >= 1,
        forall|p: int| 0 <= p < pools@.len() ==> (#[trigger] pools@[p])@.len() >= 1,
        forall|p: int, e: int|
            #![trigger pools@[p]@[e]]
            0 <= p < pools@.len() && 0 <= e < pools@[p]@.len() ==> pools@[p]@[e].0@.len()
                + pools@[p]@[e].1@.len() >= 1,
    ensures
        final(stack)@.len() > old(stack)@.len(),
        exists|p: int, e: int|
            #![trigger pools@[p]@[e]]
            0 <= p < pools@.len() && 0 <= e < pools@[p]@.len() && seq_views(final(stack)@)
                == seq_views(old(stack)@) + seq_views(pools@[p]@[e].0@) + seq_views(
                pools@[p]@[e].1@,
            ),
{
    let p = sampler.below(pools.len());
    let pool = &pools[p];
    let e = sampler.below(pool.len());
    let entry = &pool[e];
    let ghost key = entry.0@;
    let ghost succ = entry.1@;
    let mut j: usize = 0;
    proof {
        assert(seq_views(stack@) =~= seq_views(old(stack)@) + seq_views(key).take(0));
    }
    while j < entry.0.len()
        invariant
            j <= key.len(),
            entry == &pools@[p as int]@[e as int],
            seq_views(stack@) == seq_views(old(stack)@) + seq_views(key).take(j as int),
        decreases key.len() - j,
    {
        stack.push(entry.0[j].clone());
        proof {
            assert(seq_views(stack@) =~= seq_views(old(stack)@) + seq_views(key).take(
                j + 1 as int,
            )) by {
                assert(seq_views(stack@.drop_last()) =~= seq_views(old(stack)@) + seq_views(
                    key,
                ).take(j as int));
                assert(seq_views(stack@) =~= seq_views(stack@.drop_last()).push(
                    stack@.last()@,
                ));
                assert(stack@.last()@ == seq_views(key)[j as int]);
            }
        }
        j += 1;
    }
    proof {
        assert(seq_views(key).take(key.len() as int) =~= seq_views(key));
    }
    let mut q: usize = 0;
    proof {
        assert(seq_views(stack@) =~= seq_views(old(stack)@) + seq_views(key) + seq_views(
            succ,
        ).take(0));
    }
    while q < entry.1.len()
        invariant
            q <= succ.len(),
            entry == &pools@[p as int]@[e as int],
            seq_views(stack@) == seq_views(old(stack)@) + seq_views(key) + seq_views(succ).take(
                q as int,
            ),
        decreases succ.len() - q,
    {
        stack.push(entry.1[q].clone());
        proof {
            assert(seq_views(stack@) =~= seq_views(old(stack)@) + seq_views(key) + seq_views(
                succ,
            ).take(q + 1 as int)) by {
                assert(seq_views(stack@.drop_last()) =~= seq_views(old(stack)@) + seq_views(key)
                    + seq_views(succ).take(q as int));
                assert(seq_views(stack@) =~= seq_views(stack@.drop_last()).push(
                    stack@.last()@,
                ));
                assert(stack@.last()@ == seq_views(succ)[q as int]);
            }
        }
        q += 1;
    }
    proof {
        assert(seq_views(succ).take(succ.len() as int) =~= seq_views(succ));
        assert(seq_views(stack@) == seq_views(old(stack)@) + seq_views(pools@[p as int]@[
            e as int].0@) + seq_views(pools@[p as int]@[e as int].1@));
        assert(key.len() + succ.len() >= 1);
        assert(stack@.len() > old(stack)@.len()) by {
            assert(seq_views(stack@).len() == stack@.len());
            assert(seq_views(old(stack)@).len() == old(stack)@.len());
        }
    }
}

} // verus!
