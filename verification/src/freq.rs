//! Frequency Grouper: global token frequencies and frequency-value buckets.
//!
//! Tokens are counted across the whole corpus; distinct tokens are grouped
//! into buckets by identical occurrence count; buckets are ranked by size
//! (descending, ties broken by occurrence count descending).

use vstd::prelude::*;
use vstd::multiset::Multiset;
use vstd::relations::{sorted_by, total_ordering};
use vstd::seq_lib::lemma_sorted_unique;
use crate::error::ModelError;
use crate::token::{create_corpus, seq_views, tokenize};

verus! {

/// How many times `x` occurs in `s`.
pub open spec fn occurrences<A>(s: Seq<A>, x: A) -> nat
    decreases s.len(),
{
    if s.len() == 0 {
        0
    } else {
        occurrences(s.drop_last(), x) + (if s.last() == x {
            1nat
        } else {
            0nat
        })
    }
}

/// The distinct elements of `s`, in order of first appearance.
pub open spec fn firsts<A>(s: Seq<A>) -> Seq<A>
    decreases s.len(),
{
    if s.len() == 0 {
        Seq::empty()
    } else {
        let f = firsts(s.drop_last());
        if f.contains(s.last()) {
            f
        } else {
            f.push(s.last())
        }
    }
}

/// The canonical frequency table of a token sequence: each distinct token,
/// in order of first appearance, with its occurrence count.
pub open spec fn freq_pairs(toks: Seq<Seq<char>>) -> Seq<(Seq<char>, nat)> {
    firsts(toks).map_values(|t: Seq<char>| (t, occurrences(toks, t)))
}

/// The views of a key-count vector.
pub open spec fn pair_views(ps: Seq<(String, u64)>) -> Seq<(Seq<char>, nat)> {
    ps.map_values(|p: (String, u64)| (p.0@, p.1 as nat))
}

/// An element occurs in a sequence exactly when it is among its distinct
/// elements, and the distinct elements carry no duplicates.
pub proof fn lemma_firsts_props<A>(s: Seq<A>)
    ensures
        forall|x: A| firsts(s).contains(x) <==> occurrences(s, x) > 0,
        forall|i: int, j: int| 0 <= i < j < firsts(s).len() ==> firsts(s)[i] != firsts(s)[j],
        forall|x: A| occurrences(s, x) <= s.len(),
        forall|x: A| s.contains(x) ==> occurrences(s, x) > 0,
    decreases s.len(),
{
    if s.len() > 0 {
        lemma_firsts_props(s.drop_last());
        let f = firsts(s.drop_last());
        let y = s.last();
        assert forall|x: A| s.contains(x) implies occurrences(s, x) > 0 by {
            if x != y {
                let i = s.lemma_contains_to_index(x);
                assert(s.drop_last()[i] == x);
                assert(s.drop_last().contains(x));
            }
        }
        assert forall|x: A| occurrences(s, x) <= s.len() by {
            assert(occurrences(s, x) == occurrences(s.drop_last(), x) + (if s.last() == x {
                1nat
            } else {
                0nat
            }));
            assert(occurrences(s.drop_last(), x) <= s.drop_last().len());
        }
        assert forall|x: A| firsts(s).contains(x) <==> occurrences(s, x) > 0 by {
            if x == y {
                assert(firsts(s).contains(y)) by {
                    if !f.contains(y) {
                        assert(firsts(s) == f.push(y));
                        assert(firsts(s)[firsts(s).len() - 1] == y);
                    }
                }
            } else {
                assert(firsts(s).contains(x) ==> f.contains(x)) by {
                    if firsts(s).contains(x) && !f.contains(y) {
                        let i = firsts(s).lemma_contains_to_index(x);
                        if i < f.len() {
                            assert(f[i] == x);
                        }
                    }
                }
                assert(f.contains(x) ==> firsts(s).contains(x)) by {
                    if f.contains(x) {
                        let i = f.lemma_contains_to_index(x);
                        assert(firsts(s)[i] == x);
                    }
                }
            }
        }
    }
}

/// Occurrence counts after appending one element.
proof fn lemma_occurrences_push<A>(s: Seq<A>, y: A, x: A)
    ensures
        occurrences(s.push(y), x) == occurrences(s, x) + (if x == y {
            1nat
        } else {
            0nat
        }),
{
    assert(s.push(y).drop_last() =~= s);
    assert(s.push(y).last() == y);
}

/// Distinct elements after appending one element.
proof fn lemma_firsts_push<A>(s: Seq<A>, y: A)
    ensures
        firsts(s).contains(y) ==> firsts(s.push(y)) == firsts(s),
        !firsts(s).contains(y) ==> firsts(s.push(y)) == firsts(s).push(y),
{
    assert(s.push(y).drop_last() =~= s);
    assert(s.push(y).last() == y);
}

/// Index of the first key whose view equals `w`, if any.
#[verifier::loop_isolation(false)]
fn find_token(keys: &Vec<String>, w: &String) -> (r: Option<usize>)
    ensures
        match r {
            Some(j) => j < keys@.len() && keys@[j as int]@ == w@,
            None => forall|k: int| 0 <= k < keys@.len() ==> (#[trigger] keys@[k])@ != w@,
        },
{
    let mut j: usize = 0;
    while j < keys.len()
        invariant
            j <= keys@.len(),
            forall|k: int| 0 <= k < j ==> (#[trigger] keys@[k])@ != w@,
        decreases keys@.len() - j,
    {
        if keys[j].eq(w) {
            return Some(j);
        }
        j += 1;
    }
    None
}

/// Count the occurrences of every distinct token, in order of first
/// appearance.
#[verifier::loop_isolation(false)]
pub fn freq_of_tokens(toks: &Vec<String>) -> (r: Vec<(String, u64)>)
    ensures
        pair_views(r@) == freq_pairs(seq_views(toks@)),
{
    let ghost tv = seq_views(toks@);
    let mut keys: Vec<String> = Vec::new();
    let mut counts: Vec<u64> = Vec::new();
    let mut i: usize = 0;
    proof {
        assert(tv.take(0) =~= Seq::<Seq<char>>::empty());
        assert(seq_views(keys@) =~= firsts(tv.take(0)));
    }
    while i < toks.len()
        invariant
            i <= toks@.len(),
            keys@.len() == counts@.len(),
            seq_views(keys@) == firsts(tv.take(i as int)),
            forall|j: int|
                0 <= j < keys@.len() ==> counts@[j] as nat == occurrences(
                    tv.take(i as int),
                    (#[trigger] keys@[j])@,
                ),
        decreases toks@.len() - i,
    {
        let ghost pre = tv.take(i as int);
        proof {
            assert(tv.take(i + 1 as int) =~= pre.push(tv[i as int]));
            lemma_firsts_push(pre, tv[i as int]);
            lemma_firsts_props(pre);
        }
        let w = &toks[i];
        proof {
            assert(tv[i as int] == w@);
        }
        match find_token(&keys, w) {
            Some(j) => {
                proof {
                    assert(seq_views(keys@)[j as int] == keys@[j as int]@);
                    assert(firsts(pre).contains(w@));
                    assert(counts@[j as int] as nat <= pre.len());
                }
                let c = counts[j];
                counts.set(j, c + 1);
                proof {
                    assert forall|k: int| 0 <= k < keys@.len() implies counts@[k] as nat
                        == occurrences(tv.take(i + 1 as int), (#[trigger] keys@[k])@) by {
                        lemma_occurrences_push(pre, tv[i as int], keys@[k]@);
                        if k != j {
                            assert(seq_views(keys@)[k] == keys@[k]@);
                            assert(seq_views(keys@)[j as int] == keys@[j as int]@);
                            assert(keys@[k]@ != w@);
                        }
                    }
                }
            },
            None => {
                proof {
                    if firsts(pre).contains(w@) {
                        let j = firsts(pre).lemma_contains_to_index(w@);
                        assert(seq_views(keys@)[j] == keys@[j]@);
                        assert(false);
                    }
                }
                keys.push(w.clone());
                counts.push(1);
                proof {
                    assert(seq_views(keys@) =~= firsts(pre).push(w@)) by {
                        assert(seq_views(keys@.drop_last()) =~= firsts(pre));
                        assert(seq_views(keys@) =~= seq_views(keys@.drop_last()).push(
                            keys@.last()@,
                        ));
                    }
                    assert forall|k: int| 0 <= k < keys@.len() implies counts@[k] as nat
                        == occurrences(tv.take(i + 1 as int), (#[trigger] keys@[k])@) by {
                        lemma_occurrences_push(pre, tv[i as int], keys@[k]@);
                        if k < keys@.len() - 1 {
                            assert(seq_views(keys@)[k] == keys@[k]@);
                            assert(keys@[k]@ != w@);
                        } else {
                            assert(keys@[k]@ == w@);
                            assert(occurrences(pre, w@) == 0);
                        }
                    }
                }
            },
        }
        i += 1;
    }
    proof {
        assert(tv.take(toks@.len() as int) =~= tv);
    }
    let mut r: Vec<(String, u64)> = Vec::new();
    let mut k: usize = 0;
    while k < keys.len()
        invariant
            k <= keys@.len(),
            keys@.len() == counts@.len(),
            seq_views(keys@) == firsts(tv),
            forall|j: int|
                0 <= j < keys@.len() ==> counts@[j] as nat == occurrences(
                    tv,
                    (#[trigger] keys@[j])@,
                ),
            r@.len() == k,
            forall|j: int|
                0 <= j < k ==> #[trigger] r@[j].0@ == keys@[j]@ && r@[j].1 == counts@[j],
        decreases keys@.len() - k,
    {
        let kk = keys[k].clone();
        r.push((kk, counts[k]));
        k += 1;
    }
    proof {
        assert(pair_views(r@) =~= freq_pairs(tv)) by {
            assert forall|j: int| 0 <= j < r@.len() implies pair_views(r@)[j] == freq_pairs(
                tv,
            )[j] by {
                assert(seq_views(keys@)[j] == keys@[j]@);
                assert(firsts(tv)[j] == keys@[j]@);
            }
        }
    }
    r
}

/// The canonical frequency table of a raw text.
pub fn word_frequency(data: &str) -> (r: Vec<(String, u64)>)
    ensures
        pair_views(r@) == freq_pairs(tokenize(data@)),
{
    let toks = create_corpus(data);
    freq_of_tokens(&toks)
}

/// The distinct tokens of a raw text, in order of first appearance.
#[verifier::loop_isolation(false)]
pub fn distinct_tokens(data: &str) -> (r: Vec<String>)
    ensures
        seq_views(r@) == firsts(tokenize(data@)),
{
    let freq = word_frequency(data);
    let ghost tv = tokenize(data@);
    let mut r: Vec<String> = Vec::new();
    let mut i: usize = 0;
    while i < freq.len()
        invariant
            i <= freq@.len(),
            pair_views(freq@) == freq_pairs(tv),
            r@.len() == i,
            forall|j: int| 0 <= j < i ==> (#[trigger] r@[j])@ == freq@[j].0@,
        decreases freq@.len() - i,
    {
        let w = freq[i].0.clone();
        r.push(w);
        i += 1;
    }
    proof {
        assert(seq_views(r@) =~= firsts(tv)) by {
            assert(pair_views(freq@).len() == freq_pairs(tv).len());
            assert forall|j: int| 0 <= j < r@.len() implies seq_views(r@)[j] == firsts(tv)[j] by {
                assert(pair_views(freq@)[j] == freq_pairs(tv)[j]);
                assert(pair_views(freq@)[j] == (freq@[j].0@, freq@[j].1 as nat));
                assert(freq_pairs(tv)[j] == (firsts(tv)[j], occurrences(tv, firsts(tv)[j])));
            }
        }
    }
    r
}

/// The occurrence counts of a frequency table, as mathematical integers.
pub open spec fn nat_vals(ps: Seq<(String, u64)>) -> Seq<nat> {
    ps.map_values(|p: (String, u64)| p.1 as nat)
}

/// The per-distinct-token occurrence counts of a corpus.
pub open spec fn counts_seq(toks: Seq<Seq<char>>) -> Seq<nat> {
    firsts(toks).map_values(|t: Seq<char>| occurrences(toks, t))
}

/// The frequency buckets of a count sequence: each distinct count value,
/// in order of first appearance, with the number of entries carrying it.
pub open spec fn buckets_of(cs: Seq<nat>) -> Seq<(nat, nat)> {
    firsts(cs).map_values(|c: nat| (c, occurrences(cs, c)))
}

/// The views of a count-size vector.
pub open spec fn bucket_views(bs: Seq<(u64, u64)>) -> Seq<(nat, nat)> {
    bs.map_values(|b: (u64, u64)| (b.0 as nat, b.1 as nat))
}

/// Index of the first entry with value `c`, if any.
#[verifier::loop_isolation(false)]
fn find_count(keys: &Vec<u64>, c: u64) -> (r: Option<usize>)
    ensures
        match r {
            Some(j) => j < keys@.len() && keys@[j as int] == c,
            None => forall|k: int| 0 <= k < keys@.len() ==> #[trigger] keys@[k] != c,
        },
{
    let mut j: usize = 0;
    while j < keys.len()
        invariant
            j <= keys@.len(),
            forall|k: int| 0 <= k < j ==> #[trigger] keys@[k] != c,
        decreases keys@.len() - j,
    {
        if keys[j] == c {
            return Some(j);
        }
        j += 1;
    }
    None
}

/// Group a frequency table into buckets keyed by occurrence count: each
/// distinct count value, with the number of distinct tokens that carry it.
#[verifier::loop_isolation(false)]
pub fn group_frequencies(freq: &Vec<(String, u64)>) -> (r: Vec<(u64, u64)>)
    ensures
        bucket_views(r@) == buckets_of(nat_vals(freq@)),
{
    let ghost cv = nat_vals(freq@);
    let mut keys: Vec<u64> = Vec::new();
    let mut sizes: Vec<u64> = Vec::new();
    let mut i: usize = 0;
    proof {
        assert(cv.take(0) =~= Seq::<nat>::empty());
        assert(keys@.map_values(|k: u64| k as nat) =~= firsts(cv.take(0)));
    }
    while i < freq.len()
        invariant
            i <= freq@.len(),
            keys@.len() == sizes@.len(),
            keys@.map_values(|k: u64| k as nat) == firsts(cv.take(i as int)),
            forall|j: int|
                0 <= j < keys@.len() ==> sizes@[j] as nat == occurrences(
                    cv.take(i as int),
                    #[trigger] keys@[j] as nat,
                ),
        decreases freq@.len() - i,
    {
        let ghost pre = cv.take(i as int);
        let ghost kv = keys@.map_values(|k: u64| k as nat);
        proof {
            assert(cv.take(i + 1 as int) =~= pre.push(cv[i as int]));
            lemma_firsts_push(pre, cv[i as int]);
            lemma_firsts_props(pre);
        }
        let c = freq[i].1;
        proof {
            assert(cv[i as int] == c as nat);
        }
        match find_count(&keys, c) {
            Some(j) => {
                proof {
                    assert(kv[j as int] == keys@[j as int] as nat);
                    assert(firsts(pre).contains(c as nat));
                    assert(sizes@[j as int] as nat <= pre.len());
                }
                let s = sizes[j];
                sizes.set(j, s + 1);
                proof {
                    assert forall|k: int| 0 <= k < keys@.len() implies sizes@[k] as nat
                        == occurrences(cv.take(i + 1 as int), #[trigger] keys@[k] as nat) by {
                        lemma_occurrences_push(pre, cv[i as int], keys@[k] as nat);
                        if k != j {
                            assert(kv[k] == keys@[k] as nat);
                            assert(kv[j as int] == keys@[j as int] as nat);
                            assert(keys@[k] as nat != c as nat);
                        }
                    }
                }
            },
            None => {
                proof {
                    if firsts(pre).contains(c as nat) {
                        let j = firsts(pre).lemma_contains_to_index(c as nat);
                        assert(kv[j] == keys@[j] as nat);
                        assert(false);
                    }
                }
                keys.push(c);
                sizes.push(1);
                proof {
                    assert(keys@.map_values(|k: u64| k as nat) =~= firsts(pre).push(c as nat))
                        by {
                        assert(keys@.drop_last().map_values(|k: u64| k as nat) =~= firsts(pre));
                        assert(keys@.map_values(|k: u64| k as nat) =~= keys@.drop_last().map_values(
                            |k: u64| k as nat,
                        ).push(keys@.last() as nat));
                    }
                    assert forall|k: int| 0 <= k < keys@.len() implies sizes@[k] as nat
                        == occurrences(cv.take(i + 1 as int), #[trigger] keys@[k] as nat) by {
                        lemma_occurrences_push(pre, cv[i as int], keys@[k] as nat);
                        if k < keys@.len() - 1 {
                            assert(kv[k] == keys@[k] as nat);
                            assert(keys@[k] as nat != c as nat);
                        } else {
                            assert(keys@[k] as nat == c as nat);
                            assert(occurrences(pre, c as nat) == 0);
                        }
                    }
                }
            },
        }
        i += 1;
    }
    proof {
        assert(cv.take(freq@.len() as int) =~= cv);
    }
    let mut r: Vec<(u64, u64)> = Vec::new();
    let mut k: usize = 0;
    while k < keys.len()
        invariant
            k <= keys@.len(),
            keys@.len() == sizes@.len(),
            keys@.map_values(|kk: u64| kk as nat) == firsts(cv),
            forall|j: int|
                0 <= j < keys@.len() ==> sizes@[j] as nat == occurrences(
                    cv,
                    #[trigger] keys@[j] as nat,
                ),
            r@.len() == k,
            forall|j: int|
                0 <= j < k ==> #[trigger] r@[j].0 == keys@[j] && r@[j].1 == sizes@[j],
        decreases keys@.len() - k,
    {
        r.push((keys[k], sizes[k]));
        k += 1;
    }
    proof {
        assert(bucket_views(r@) =~= buckets_of(cv)) by {
            assert forall|j: int| 0 <= j < r@.len() implies bucket_views(r@)[j] == buckets_of(
                cv,
            )[j] by {
                assert(keys@.map_values(|kk: u64| kk as nat)[j] == keys@[j] as nat);
                assert(firsts(cv)[j] == keys@[j] as nat);
            }
        }
    }
    r
}

/// Sort a frequency table by occurrence count, descending; among equal
/// counts the input order is kept.
#[verifier::loop_isolation(false)]
fn sort_pairs_desc(src: Vec<(String, u64)>) -> (r: Vec<(String, u64)>)
    ensures
        pair_views(r@).to_multiset() == pair_views(src@).to_multiset(),
        forall|i: int, j: int| 0 <= i < j < r@.len() ==> r@[i].1 >= r@[j].1,
{
    let ghost orig = pair_views(src@);
    let mut src = src;
    let mut out: Vec<(String, u64)> = Vec::new();
    proof {
        broadcast use vstd::seq_lib::group_to_multiset_ensures;

        assert(pair_views(out@) =~= Seq::<(Seq<char>, nat)>::empty());
        assert(pair_views(out@).to_multiset().add(pair_views(src@).to_multiset())
            =~= orig.to_multiset());
    }
    while src.len() > 0
        invariant
            pair_views(out@).to_multiset().add(pair_views(src@).to_multiset())
                == orig.to_multiset(),
            forall|i: int, j: int| 0 <= i < j < out@.len() ==> out@[i].1 >= out@[j].1,
            forall|i: int, j: int|
                0 <= i < out@.len() && 0 <= j < src@.len() ==> out@[i].1 >= src@[j].1,
        decreases src@.len(),
    {
        let mut m: usize = 0;
        let mut j: usize = 1;
        while j < src.len()
            invariant
                m < j <= src@.len(),
                src@.len() > 0,
                forall|k: int| 0 <= k < j ==> src@[m as int].1 >= #[trigger] src@[k].1,
            decreases src@.len() - j,
        {
            if src[j].1 > src[m].1 {
                m = j;
            }
            j += 1;
        }
        let ghost pre_src = src@;
        let ghost pre_out = out@;
        let x = src.remove(m);
        out.push(x);
        proof {
            broadcast use vstd::seq_lib::group_to_multiset_ensures;
            broadcast use vstd::multiset::group_multiset_axioms;

            let xv = (pre_src[m as int].0@, pre_src[m as int].1 as nat);
            assert(pair_views(pre_src)[m as int] == xv);
            assert(pair_views(src@) =~= pair_views(pre_src).remove(m as int));
            assert(pair_views(out@) =~= pair_views(pre_out).push(xv));
            assert(pair_views(out@).to_multiset() =~= pair_views(pre_out).to_multiset().insert(
                xv,
            ));
            assert(pair_views(src@).to_multiset() =~= pair_views(pre_src).to_multiset().remove(
                xv,
            ));
            assert(pair_views(out@).to_multiset().add(pair_views(src@).to_multiset())
                =~= orig.to_multiset());
            assert forall|i: int, j2: int|
                #![trigger out@[i], src@[j2]]
                0 <= i < out@.len() && 0 <= j2 < src@.len() implies out@[i].1 >= src@[j2].1 by {
                let q = if j2 < m { j2 } else { j2 + 1 };
                assert(src@[j2] == pre_src[q]);
            }
        }
    }
    proof {
        broadcast use vstd::seq_lib::group_to_multiset_ensures;

        assert(pair_views(src@).to_multiset() =~= Multiset::<(Seq<char>, nat)>::empty());
        assert(pair_views(out@).to_multiset() =~= orig.to_multiset());
    }
    out
}

/// Word frequencies of a raw text, most frequent first.
pub fn word_cmd(data: &str) -> (r: Vec<(String, u64)>)
    ensures
        pair_views(r@).to_multiset() == freq_pairs(tokenize(data@)).to_multiset(),
        forall|i: int, j: int| 0 <= i < j < r@.len() ==> r@[i].1 >= r@[j].1,
{
    let freq = word_frequency(data);
    sort_pairs_desc(freq)
}

/// Frequency buckets of a raw text, ranked: largest bucket first, ties
/// broken by occurrence count descending.
pub fn group_cmd(data: &str) -> (r: Vec<(u64, u64)>)
    ensures
        bucket_views(r@) == ranked_buckets(counts_seq(tokenize(data@))),
{
    let freq = word_frequency(data);
    let buckets = group_frequencies(&freq);
    proof {
        let tv = tokenize(data@);
        assert(pair_views(freq@).len() == freq_pairs(tv).len());
        assert(freq@.len() == firsts(tv).len());
        assert(nat_vals(freq@) =~= counts_seq(tv)) by {
            assert forall|j: int| 0 <= j < freq@.len() implies nat_vals(freq@)[j] == counts_seq(
                tv,
            )[j] by {
                assert(pair_views(freq@)[j] == freq_pairs(tv)[j]);
                assert(pair_views(freq@)[j] == (freq@[j].0@, freq@[j].1 as nat));
                assert(freq_pairs(tv)[j] == (firsts(tv)[j], occurrences(tv, firsts(tv)[j])));
                assert(nat_vals(freq@)[j] == freq@[j].1 as nat);
                assert(counts_seq(tv)[j] == occurrences(tv, firsts(tv)[j]));
            }
        }
    }
    sort_buckets(buckets)
}

/// The first order paired with `t`, if any.
pub open spec fn lookup_order(ps: Seq<(String, u32)>, t: Seq<char>) -> Option<u32>
    decreases ps.len(),
{
    if ps.len() == 0 {
        None
    } else if ps[0].0@ == t {
        Some(ps[0].1)
    } else {
        lookup_order(ps.skip(1), t)
    }
}

/// What a lookup result says about the entries.
pub proof fn lemma_lookup_order(ps: Seq<(String, u32)>, t: Seq<char>)
    ensures
        match lookup_order(ps, t) {
            Some(o) => exists|j: int| 0 <= j < ps.len() && (#[trigger] ps[j]).0@ == t && ps[j].1 == o,
            None => forall|j: int| 0 <= j < ps.len() ==> (#[trigger] ps[j]).0@ != t,
        },
    decreases ps.len(),
{
    if ps.len() > 0 && ps[0].0@ == t {
        assert(0 <= 0 < ps.len() && (#[trigger] ps[0]).0@ == t && ps[0].1 == ps[0].1);
    }
    if ps.len() > 0 && ps[0].0@ != t {
        lemma_lookup_order(ps.skip(1), t);
        match lookup_order(ps.skip(1), t) {
            Some(o) => {
                let j = choose|j: int|
                    0 <= j < ps.skip(1).len() && (#[trigger] ps.skip(1)[j]).0@ == t && ps.skip(
                        1,
                    )[j].1 == o;
                assert(ps.skip(1)[j] == ps[j + 1]);
                assert(0 <= j + 1 < ps.len() && (#[trigger] ps[j + 1]).0@ == t && ps[j + 1].1
                    == o);
            },
            None => {
                assert forall|j: int| 0 <= j < ps.len() implies (#[trigger] ps[j]).0@ != t by {
                    if j > 0 {
                        assert(ps.skip(1)[j - 1] == ps[j]);
                    }
                }
            },
        }
    }
}

/// The order assigned to a token: the size of its frequency bucket if that
/// bucket is among the top `n` in ranking order, else the size of the
/// `n`-th ranked bucket.
pub open spec fn assigned_order(tv: Seq<Seq<char>>, n: nat, t: Seq<char>) -> nat {
    let cs = counts_seq(tv);
    let bs = ranked_buckets(cs);
    let c = occurrences(tv, t);
    let b = (c, occurrences(cs, c));
    match bs.index_of_first(b) {
        Some(i) => if i < n {
            bs[i].1
        } else {
            bs[n - 1].1
        },
        None => 0,
    }
}

/// The persisted mapping from token to chain order, computed once per
/// training run from global token frequencies.
pub struct OrderAssignment {
    pub pairs: Vec<(String, u32)>,
}

impl OrderAssignment {
    /// The token views, in assignment order.
    pub open spec fn keys(self) -> Seq<Seq<char>> {
        self.pairs@.map_values(|p: (String, u32)| p.0@)
    }

    /// The orders, in assignment order.
    pub open spec fn orders(self) -> Seq<u32> {
        self.pairs@.map_values(|p: (String, u32)| p.1)
    }

    /// The raw entries.
    pub open spec fn spec_entries(self) -> Seq<(String, u32)> {
        self.pairs@
    }

    /// Each token appears at most once, and every order is positive.
    pub open spec fn wf(self) -> bool {
        &&& forall|i: int, j: int|
            0 <= i < j < self.keys().len() ==> self.keys()[i] != self.keys()[j]
        &&& forall|i: int| 0 <= i < self.orders().len() ==> (#[trigger] self.orders()[i]) >= 1
    }

    /// The order of a token, if assigned.
    pub open spec fn spec_order_of(self, t: Seq<char>) -> Option<u32> {
        lookup_order(self.pairs@, t)
    }

    /// Look up the order assigned to a word.
    #[verifier::loop_isolation(false)]
    pub fn order_of(&self, w: &String) -> (r: Option<u32>)
        ensures
            r == self.spec_order_of(w@),
    {
        let mut i: usize = 0;
        proof {
            assert(self.pairs@.skip(0) =~= self.pairs@);
        }
        while i < self.pairs.len()
            invariant
                i <= self.pairs@.len(),
                lookup_order(self.pairs@, w@) == lookup_order(self.pairs@.skip(i as int), w@),
            decreases self.pairs@.len() - i,
        {
            proof {
                assert(self.pairs@.skip(i as int)[0] == self.pairs@[i as int]);
                assert(self.pairs@.skip(i as int).skip(1) =~= self.pairs@.skip(i + 1 as int));
            }
            if self.pairs[i].0.eq(w) {
                return Some(self.pairs[i].1);
            }
            i += 1;
        }
        None
    }

    /// The entries, for persistence.
    pub fn entries(&self) -> (r: &Vec<(String, u32)>)
        ensures
            r@ == self.spec_entries(),
    {
        &self.pairs
    }

    /// The number of assigned tokens.
    pub fn len(&self) -> (r: usize)
        ensures
            r == self.keys().len(),
    {
        self.pairs.len()
    }

    /// Rebuild an assignment from persisted entries, validating that every
    /// token appears once and every order is positive.
    #[verifier::loop_isolation(false)]
    pub fn from_entries(pairs: Vec<(String, u32)>) -> (r: Option<OrderAssignment>)
        ensures
            match r {
                Some(a) => a.spec_entries() == pairs@ && a.wf(),
                None => !(OrderAssignment { pairs }).wf(),
            },
    {
        let ghost whole = OrderAssignment { pairs };
        let mut i: usize = 0;
        while i < pairs.len()
            invariant
                i <= pairs@.len(),
                forall|a: int, b: int| 0 <= a < b < i ==> whole.keys()[a] != whole.keys()[b],
                forall|a: int| 0 <= a < i ==> (#[trigger] whole.orders()[a]) >= 1,
            decreases pairs@.len() - i,
        {
            if pairs[i].1 < 1 {
                proof {
                    assert(whole.orders()[i as int] == pairs@[i as int].1);
                }
                return None;
            }
            let mut j: usize = 0;
            while j < i
                invariant
                    j <= i < pairs@.len(),
                    forall|a: int| 0 <= a < j ==> whole.keys()[a] != whole.keys()[i as int],
                decreases i - j,
            {
                if pairs[j].0.eq(&pairs[i].0) {
                    proof {
                        assert(whole.keys()[j as int] == whole.keys()[i as int]);
                    }
                    return None;
                }
                proof {
                    assert(whole.keys()[j as int] == pairs@[j as int].0@);
                    assert(whole.keys()[i as int] == pairs@[i as int].0@);
                }
                j += 1;
            }
            proof {
                assert(whole.orders()[i as int] == pairs@[i as int].1);
            }
            i += 1;
        }
        Some(OrderAssignment { pairs })
    }

    /// The distinct orders that occur in the assignment, in order of first
    /// appearance.
    #[verifier::loop_isolation(false)]
    pub fn distinct_orders(&self) -> (r: Vec<u32>)
        ensures
            r@ == firsts(self.orders()),
    {
        let ghost ov = self.orders();
        let mut r: Vec<u32> = Vec::new();
        let mut i: usize = 0;
        proof {
            assert(ov.take(0) =~= Seq::<u32>::empty());
            assert(r@ =~= firsts(ov.take(0)));
        }
        while i < self.pairs.len()
            invariant
                i <= self.pairs@.len(),
                r@ == firsts(ov.take(i as int)),
            decreases self.pairs@.len() - i,
        {
            let g = self.pairs[i].1;
            proof {
                assert(ov.take(i + 1 as int) =~= ov.take(i as int).push(ov[i as int]));
                assert(ov[i as int] == g);
                lemma_firsts_push(ov.take(i as int), ov[i as int]);
            }
            let mut seen = false;
            let mut j: usize = 0;
            while j < r.len()
                invariant
                    j <= r@.len(),
                    seen <==> exists|k: int| 0 <= k < j && r@[k] == g,
                decreases r@.len() - j,
            {
                if r[j] == g {
                    seen = true;
                }
                j += 1;
            }
            proof {
                assert(seen <==> r@.contains(g));
            }
            if !seen {
                r.push(g);
            }
            i += 1;
        }
        proof {
            assert(ov.take(ov.len() as int) =~= ov);
        }
        r
    }
}

/// Index of the first bucket with count value `c`, if any.
#[verifier::loop_isolation(false)]
fn find_bucket(bs: &Vec<(u64, u64)>, c: u64) -> (r: Option<usize>)
    ensures
        match r {
            Some(i) => i < bs@.len() && bs@[i as int].0 == c && forall|k: int|
                0 <= k < i ==> (#[trigger] bs@[k]).0 != c,
            None => forall|k: int| 0 <= k < bs@.len() ==> (#[trigger] bs@[k]).0 != c,
        },
{
    let mut i: usize = 0;
    while i < bs.len()
        invariant
            i <= bs@.len(),
            forall|k: int| 0 <= k < i ==> (#[trigger] bs@[k]).0 != c,
        decreases bs@.len() - i,
    {
        if bs[i].0 == c {
            return Some(i);
        }
        i += 1;
    }
    None
}

/// Derive the order assignment of a corpus: bucket the distinct tokens by
/// occurrence count, rank the buckets by size (ties by count), keep the top
/// `count` buckets as orders equal to their own sizes, and fold every other
/// token into the order of the `count`-th ranked bucket.
#[verifier::loop_isolation(false)]
#[verifier::rlimit(60)]
pub fn compute_order_assignment(toks: &Vec<String>, count: usize) -> (r: Result<
    OrderAssignment,
    ModelError,
>)
    requires
        count >= 1,
        toks@.len() <= u32::MAX,
    ensures
        match r {
            Ok(a) => {
                &&& toks@.len() > 0
                &&& a.wf()
                &&& a.keys() == firsts(seq_views(toks@))
                &&& forall|j: int|
                    0 <= j < a.orders().len() ==> (#[trigger] a.orders()[j]) as nat
                        == assigned_order(seq_views(toks@), count as nat, a.keys()[j])
            },
            Err(e) => toks@.len() == 0 && e matches ModelError::EmptyCorpus,
        },
{
    let ghost tv = seq_views(toks@);
    if toks.len() == 0 {
        return Err(ModelError::EmptyCorpus);
    }
    let freq = freq_of_tokens(toks);
    let buckets = group_frequencies(&freq);
    let ghost cs = counts_seq(tv);
    proof {
        assert(pair_views(freq@).len() == freq_pairs(tv).len());
        assert(freq@.len() == firsts(tv).len());
        assert(nat_vals(freq@) =~= cs) by {
            assert forall|j: int| 0 <= j < freq@.len() implies nat_vals(freq@)[j] == cs[j] by {
                assert(pair_views(freq@)[j] == freq_pairs(tv)[j]);
                assert(pair_views(freq@)[j] == (freq@[j].0@, freq@[j].1 as nat));
                assert(freq_pairs(tv)[j] == (firsts(tv)[j], occurrences(tv, firsts(tv)[j])));
            }
        }
    }
    let sorted = sort_buckets(buckets);
    let ghost bs = ranked_buckets(cs);
    proof {
        assert(bucket_views(sorted@) == bs);
        lemma_bucket_order_total();
        buckets_of(cs).lemma_sort_by_ensures(bucket_order());
        buckets_of(cs).to_multiset_ensures();
        bs.to_multiset_ensures();
        lemma_firsts_props(cs);
        lemma_firsts_props(tv);
        lemma_firsts_len(tv);
        // Every ranked bucket is one of the buckets of `cs`, so its size is
        // the occurrence count of its count value, and positive.
        assert forall|j: int|
            0 <= j < bs.len() implies (#[trigger] bs[j]).1 == occurrences(cs, bs[j].0) && bs[j].1
            >= 1 && bs[j].1 <= tv.len() && firsts(cs).contains(bs[j].0) by {
            assert(bs.to_multiset().count(bs[j]) > 0) by {
                bs.to_multiset_ensures();
                assert(bs.contains(bs[j]));
            }
            assert(buckets_of(cs).contains(bs[j]));
            let k = buckets_of(cs).lemma_contains_to_index(bs[j]);
            assert(buckets_of(cs)[k] == (firsts(cs)[k], occurrences(cs, firsts(cs)[k])));
            assert(firsts(cs).contains(firsts(cs)[k]));
            assert(occurrences(cs, firsts(cs)[k]) >= 1);
            assert(occurrences(cs, firsts(cs)[k]) <= cs.len());
            assert(cs.len() == firsts(tv).len());
        }
    }
    let mut pairs: Vec<(String, u32)> = Vec::new();
    let mut idx: usize = 0;
    while idx < freq.len()
        invariant
            idx <= freq@.len(),
            pairs@.len() == idx,
            forall|j: int| 0 <= j < idx ==> (#[trigger] pairs@[j]).0@ == firsts(tv)[j],
            forall|j: int| 0 <= j < idx ==> (#[trigger] pairs@[j]).1 >= 1,
            forall|j: int|
                0 <= j < idx ==> (#[trigger] pairs@[j]).1 as nat == assigned_order(
                    tv,
                    count as nat,
                    firsts(tv)[j],
                ),
        decreases freq@.len() - idx,
    {
        let c = freq[idx].1;
        let ghost t = firsts(tv)[idx as int];
        proof {
            assert(pair_views(freq@)[idx as int] == freq_pairs(tv)[idx as int]);
            assert(freq@[idx as int].0@ == t);
            assert(c as nat == occurrences(tv, t));
            assert(cs[idx as int] == c as nat);
            assert(cs.contains(c as nat));
            assert(firsts(cs).contains(c as nat));
        }
        let ghost b = (c as nat, occurrences(cs, c as nat));
        proof {
            let k = firsts(cs).lemma_contains_to_index(c as nat);
            assert(buckets_of(cs)[k] == b);
            assert(buckets_of(cs).contains(b));
            buckets_of(cs).to_multiset_ensures();
            bs.to_multiset_ensures();
            assert(buckets_of(cs).to_multiset().count(b) > 0);
            assert(bs.to_multiset().count(b) > 0);
            assert(bs.contains(b));
        }
        match find_bucket(&sorted, c) {
            Some(i) => {
                proof {
                    assert(bucket_views(sorted@)[i as int] == bs[i as int]);
                    assert(bs[i as int].0 == c as nat);
                    assert(bs[i as int] == b);
                    bs.index_of_first_ensures(b);
                    let i0 = bs.index_of_first(b).unwrap();
                    assert(bs[i0] == b);
                    if i0 < i {
                        assert(bucket_views(sorted@)[i0] == bs[i0]);
                        assert((sorted@[i0]).0 as nat == c as nat);
                        assert((sorted@[i0]).0 == c);
                        assert(false);
                    }
                    if i0 > i {
                        assert(false);
                    }
                    assert(bs.index_of_first(b) == Some(i as int));
                }
                let ord_u64 = if i < count {
                    sorted[i].1
                } else {
                    proof {
                        assert(count - 1 < bs.len());
                    }
                    sorted[count - 1].1
                };
                proof {
                    assert(ord_u64 as nat == assigned_order(tv, count as nat, t)) by {
                        if i < count {
                            assert(bucket_views(sorted@)[i as int].1 == sorted@[i as int].1 as nat);
                        } else {
                            assert(bucket_views(sorted@)[count - 1].1 == sorted@[count - 1].1
                                as nat);
                        }
                    }
                    assert(ord_u64 >= 1 && ord_u64 <= u32::MAX) by {
                        if i < count {
                            assert(bs[i as int].1 >= 1 && bs[i as int].1 <= tv.len());
                        } else {
                            assert(bs[count - 1].1 >= 1 && bs[count - 1].1 <= tv.len());
                        }
                    }
                }
                let w = freq[idx].0.clone();
                pairs.push((w, ord_u64 as u32));
            },
            None => {
                proof {
                    let k = bs.lemma_contains_to_index(b);
                    assert(bucket_views(sorted@)[k] == bs[k]);
                    assert(sorted@[k].0 == c);
                    assert(false);
                }
                return Err(ModelError::EmptyCorpus);
            },
        }
        idx += 1;
    }
    let a = OrderAssignment { pairs };
    proof {
        assert(a.keys() =~= firsts(tv)) by {
            assert forall|j: int| 0 <= j < a.keys().len() implies a.keys()[j] == firsts(tv)[j] by {
                assert(a.keys()[j] == pairs@[j].0@);
            }
        }
        assert forall|i: int, j: int|
            0 <= i < j < a.keys().len() implies a.keys()[i] != a.keys()[j] by {}
        assert forall|i: int| 0 <= i < a.orders().len() implies (#[trigger] a.orders()[i])
            >= 1 by {
            assert(a.orders()[i] == pairs@[i].1);
        }
        assert forall|j: int|
            0 <= j < a.orders().len() implies (#[trigger] a.orders()[j]) as nat == assigned_order(
            tv,
            count as nat,
            a.keys()[j],
        ) by {
            assert(a.orders()[j] == pairs@[j].1);
            assert(a.keys()[j] == pairs@[j].0@);
            assert(a.keys()[j] == firsts(tv)[j]);
        }
    }
    Ok(a)
}

/// The sum of the bucket sizes.
pub open spec fn sum_sizes(bs: Seq<(nat, nat)>) -> nat
    decreases bs.len(),
{
    if bs.len() == 0 {
        0
    } else {
        sum_sizes(bs.drop_last()) + bs.last().1
    }
}

/// The sum, over a set of representatives, of their occurrence counts in `s`.
spec fn sum_occ<A>(f: Seq<A>, s: Seq<A>) -> nat
    decreases f.len(),
{
    if f.len() == 0 {
        0
    } else {
        sum_occ(f.drop_last(), s) + occurrences(s, f.last())
    }
}

/// Appending an element to the counted sequence raises the sum by the
/// number of representatives it matches.
proof fn lemma_sum_occ_push<A>(f: Seq<A>, s: Seq<A>, y: A)
    ensures
        sum_occ(f, s.push(y)) == sum_occ(f, s) + occurrences(f, y),
    decreases f.len(),
{
    if f.len() > 0 {
        lemma_sum_occ_push(f.drop_last(), s, y);
        lemma_occurrences_push(s, y, f.last());
    }
}

/// In a duplicate-free sequence, a contained element occurs exactly once.
proof fn lemma_occ_in_nodup<A>(f: Seq<A>, y: A)
    requires
        forall|i: int, j: int| 0 <= i < j < f.len() ==> f[i] != f[j],
    ensures
        f.contains(y) ==> occurrences(f, y) == 1,
        !f.contains(y) ==> occurrences(f, y) == 0,
    decreases f.len(),
{
    if f.len() > 0 {
        assert(forall|i: int|
            0 <= i < f.drop_last().len() ==> #[trigger] f.drop_last()[i] == f[i]);
        lemma_occ_in_nodup(f.drop_last(), y);
        if f.last() == y {
            assert(!f.drop_last().contains(y)) by {
                if f.drop_last().contains(y) {
                    let i = f.drop_last().lemma_contains_to_index(y);
                    assert(f[i] == y && f[f.len() - 1] == y);
                }
            }
        } else {
            assert(f.contains(y) ==> f.drop_last().contains(y)) by {
                if f.contains(y) {
                    let i = f.lemma_contains_to_index(y);
                    assert(i < f.len() - 1);
                    assert(f.drop_last()[i] == y);
                }
            }
            assert(f.drop_last().contains(y) ==> f.contains(y)) by {
                if f.drop_last().contains(y) {
                    let i = f.drop_last().lemma_contains_to_index(y);
                    assert(f[i] == y);
                }
            }
        }
    }
}

/// The occurrence counts of the distinct elements partition a sequence.
proof fn lemma_sum_occ_total<A>(s: Seq<A>)
    ensures
        sum_occ(firsts(s), s) == s.len(),
    decreases s.len(),
{
    if s.len() > 0 {
        let sp = s.drop_last();
        let y = s.last();
        lemma_sum_occ_total(sp);
        lemma_firsts_props(sp);
        let f = firsts(sp);
        assert(s =~= sp.push(y));
        lemma_firsts_push(sp, y);
        if f.contains(y) {
            assert(firsts(s) == f);
            lemma_sum_occ_push(f, sp, y);
            lemma_firsts_props(f.push(y));
            assert forall|i: int, j: int| 0 <= i < j < f.len() implies f[i] != f[j] by {}
            lemma_occ_in_nodup(f, y);
        } else {
            assert(firsts(s) == f.push(y));
            assert(sum_occ(f.push(y), s) == sum_occ(f, s) + occurrences(s, y)) by {
                assert(f.push(y).drop_last() =~= f);
                assert(f.push(y).last() == y);
            }
            lemma_sum_occ_push(f, sp, y);
            lemma_occ_in_nodup(f, y);
            assert(occurrences(f, y) == 0);
            assert(occurrences(s, y) == 1) by {
                lemma_occurrences_push(sp, y, y);
                assert(occurrences(sp, y) == 0);
            }
        }
    } else {
        assert(sum_occ(firsts(s), s) == 0);
    }
}

/// Frequency grouping is total: the sizes of the buckets sum to the number
/// of distinct count values' carriers, that is, to the number of distinct
/// tokens whose counts were grouped.
pub proof fn lemma_buckets_total(cs: Seq<nat>)
    ensures
        sum_sizes(buckets_of(cs)) == cs.len(),
{
    lemma_sum_sizes_map(firsts(cs), cs);
    lemma_sum_occ_total(cs);
}

/// The distinct elements are never more numerous than the sequence.
proof fn lemma_firsts_len<A>(s: Seq<A>)
    ensures
        firsts(s).len() <= s.len(),
    decreases s.len(),
{
    if s.len() > 0 {
        lemma_firsts_len(s.drop_last());
    }
}

/// Ranking order on buckets: larger buckets first, ties broken by the
/// larger occurrence count.
pub open spec fn bucket_le(a: (nat, nat), b: (nat, nat)) -> bool {
    a.1 > b.1 || (a.1 == b.1 && a.0 >= b.0)
}

/// The ranking order as a relation value.
pub open spec fn bucket_order() -> spec_fn((nat, nat), (nat, nat)) -> bool {
    |a: (nat, nat), b: (nat, nat)| bucket_le(a, b)
}

/// The ranking order is a total order on buckets.
pub proof fn lemma_bucket_order_total()
    ensures
        total_ordering(bucket_order()),
{
    let r = bucket_order();
    assert forall|a: (nat, nat), b: (nat, nat)| #[trigger] r(a, b) && r(b, a) implies a == b by {
        assert(a.0 == b.0 && a.1 == b.1);
    }
}

/// The frequency buckets, ranked: by size descending, ties broken by
/// occurrence count descending.
pub open spec fn ranked_buckets(cs: Seq<nat>) -> Seq<(nat, nat)> {
    buckets_of(cs).sort_by(bucket_order())
}

/// Whether bucket `a` ranks no later than bucket `b`.
fn bucket_le_exec(a: (u64, u64), b: (u64, u64)) -> (r: bool)
    ensures
        r == bucket_le((a.0 as nat, a.1 as nat), (b.0 as nat, b.1 as nat)),
{
    a.1 > b.1 || (a.1 == b.1 && a.0 >= b.0)
}

/// Sort buckets into ranking order.
#[verifier::loop_isolation(false)]
fn sort_buckets(src: Vec<(u64, u64)>) -> (r: Vec<(u64, u64)>)
    ensures
        bucket_views(r@) == bucket_views(src@).sort_by(bucket_order()),
{
    let ghost orig = bucket_views(src@);
    let mut src = src;
    let mut out: Vec<(u64, u64)> = Vec::new();
    proof {
        broadcast use vstd::seq_lib::group_to_multiset_ensures;

        assert(bucket_views(out@) =~= Seq::<(nat, nat)>::empty());
        assert(bucket_views(out@).to_multiset().add(bucket_views(src@).to_multiset())
            =~= orig.to_multiset());
    }
    while src.len() > 0
        invariant
            bucket_views(out@).to_multiset().add(bucket_views(src@).to_multiset())
                == orig.to_multiset(),
            forall|i: int, j: int|
                0 <= i < j < out@.len() ==> bucket_le(
                    #[trigger] bucket_views(out@)[i],
                    #[trigger] bucket_views(out@)[j],
                ),
            forall|i: int, j: int|
                0 <= i < out@.len() && 0 <= j < src@.len() ==> bucket_le(
                    #[trigger] bucket_views(out@)[i],
                    #[trigger] bucket_views(src@)[j],
                ),
        decreases src@.len(),
    {
        let mut m: usize = 0;
        let mut j: usize = 1;
        while j < src.len()
            invariant
                m < j <= src@.len(),
                src@.len() > 0,
                forall|k: int|
                    0 <= k < j ==> bucket_le(
                        #[trigger] bucket_views(src@)[m as int],
                        bucket_views(src@)[k],
                    ),
            decreases src@.len() - j,
        {
            if bucket_le_exec(src[j], src[m]) {
                m = j;
            }
            j += 1;
        }
        let ghost pre_src = bucket_views(src@);
        let ghost pre_out = bucket_views(out@);
        let x = src.remove(m);
        out.push(x);
        proof {
            broadcast use vstd::seq_lib::group_to_multiset_ensures;
            broadcast use vstd::multiset::group_multiset_axioms;

            let xv = (x.0 as nat, x.1 as nat);
            assert(pre_src[m as int] == xv);
            assert(bucket_views(src@) =~= pre_src.remove(m as int));
            assert(bucket_views(out@) =~= pre_out.push(xv));
            assert(bucket_views(out@).to_multiset() =~= pre_out.to_multiset().insert(xv));
            assert(bucket_views(src@).to_multiset() =~= pre_src.to_multiset().remove(xv));
            assert(bucket_views(out@).to_multiset().add(bucket_views(src@).to_multiset())
                =~= orig.to_multiset());
            assert forall|i: int, j2: int|
                0 <= i < out@.len() && 0 <= j2 < src@.len() implies bucket_le(
                #[trigger] bucket_views(out@)[i],
                #[trigger] bucket_views(src@)[j2],
            ) by {
                let q = if j2 < m { j2 } else { j2 + 1 };
                assert(bucket_views(src@)[j2] == pre_src[q]);
                assert(bucket_le(xv, pre_src[q]));
                if i < out@.len() - 1 {
                    assert(bucket_views(out@)[i] == pre_out[i]);
                }
            }
        }
    }
    proof {
        broadcast use vstd::seq_lib::group_to_multiset_ensures;

        assert(bucket_views(src@).to_multiset() =~= Multiset::<(nat, nat)>::empty());
        assert(bucket_views(out@).to_multiset() =~= orig.to_multiset());
        lemma_bucket_order_total();
        orig.lemma_sort_by_ensures(bucket_order());
        assert(sorted_by(bucket_views(out@), bucket_order())) by {
            assert forall|i: int, j: int| 0 <= i < j < out@.len() implies (bucket_order())(
                bucket_views(out@)[i],
                bucket_views(out@)[j],
            ) by {
                assert(bucket_le(bucket_views(out@)[i], bucket_views(out@)[j]));
            }
        }
        lemma_sorted_unique(bucket_views(out@), orig.sort_by(bucket_order()), bucket_order());
    }
    out
}

/// Frequency grouping is total over a corpus: the sizes of its frequency
/// buckets sum to its number of distinct tokens.
pub proof fn lemma_grouping_total(tv: Seq<Seq<char>>)
    ensures
        sum_sizes(buckets_of(counts_seq(tv))) == firsts(tv).len(),
{
    lemma_buckets_total(counts_seq(tv));
}

/// The sum of the mapped bucket sizes equals the sum of occurrence counts.
proof fn lemma_sum_sizes_map(f: Seq<nat>, cs: Seq<nat>)
    ensures
        sum_sizes(f.map_values(|c: nat| (c, occurrences(cs, c)))) == sum_occ(f, cs),
    decreases f.len(),
{
    let g = |c: nat| (c, occurrences(cs, c));
    if f.len() > 0 {
        lemma_sum_sizes_map(f.drop_last(), cs);
        assert(f.map_values(g).drop_last() =~= f.drop_last().map_values(g));
        assert(f.map_values(g).last() == g(f.last()));
    } else {
        assert(f.map_values(g).len() == 0);
    }
}

} // verus!
