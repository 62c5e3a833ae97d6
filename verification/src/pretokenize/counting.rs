//! Counting pretokens: per document, over documents split at a separator,
//! with weights, and merging the counts of several chunks.
use vstd::prelude::*;
use vstd::utf8::*;
use crate::bytemap::ByteMap;
use crate::unicode::{valid_from, lemma_step, suffix, width_at};
use vstd::slice::slice_subrange;
use crate::pretokenize::pattern::pretokens_of;
use crate::pretokenize::pretoken::Pretoken;
use crate::pretokenize::scalar::pretoken_bytes;
use crate::pretokenize::state_machine::{docs_pretokens, pretokenize_doc_iterable};

verus! {

/// How often `k` occurs in `s`.
pub open spec fn count_of(s: Seq<Seq<u8>>, k: Seq<u8>) -> nat
    decreases s.len(),
{
    if s.len() == 0 {
        0
    } else {
        count_of(s.drop_last(), k) + if s.last() == k {
            1nat
        } else {
            0nat
        }
    }
}

/// `k` is counted exactly when it occurs.
pub proof fn lemma_count_of_pos(s: Seq<Seq<u8>>, k: Seq<u8>)
    ensures
        count_of(s, k) > 0 <==> s.contains(k),
    decreases s.len(),
{
    if s.len() > 0 {
        lemma_count_of_pos(s.drop_last(), k);
        if s.drop_last().contains(k) {
            let j = choose|j: int| 0 <= j < s.drop_last().len() && s.drop_last()[j] == k;
            assert(s[j] == k);
        }
        if s.contains(k) && s.last() != k {
            let j = choose|j: int| 0 <= j < s.len() && s[j] == k;
            assert(j < s.len() - 1);
            assert(s.drop_last()[j] == k);
        }
        if s.last() == k {
            assert(s[s.len() - 1] == k);
        }
    }
}

pub proof fn lemma_count_of_le(s: Seq<Seq<u8>>, k: Seq<u8>)
    ensures
        count_of(s, k) <= s.len(),
    decreases s.len(),
{
    if s.len() > 0 {
        lemma_count_of_le(s.drop_last(), k);
    }
}

/// The count of `k` in a map of counts (0 when absent).
pub open spec fn count_in(m: Map<Seq<u8>, usize>, k: Seq<u8>) -> nat {
    if m.contains_key(k) {
        m[k] as nat
    } else {
        0
    }
}

/// Adds one for each pretoken of `pieces` to `counts`.
pub fn add_pretoken_counts(counts: &mut ByteMap<usize>, pieces: &Vec<Pretoken>)
    requires
        old(counts).wf(),
        forall|k: Seq<u8>| count_in(old(counts).map_view(), k) + pieces@.len() <= usize::MAX,
    ensures
        final(counts).wf(),
        forall|k: Seq<u8>|
            #![trigger count_in(final(counts).map_view(), k)]
            count_in(final(counts).map_view(), k) == count_in(old(counts).map_view(), k) + count_of(
                pretoken_bytes(pieces@),
                k,
            ),
        forall|k: Seq<u8>| #[trigger] final(counts).map_view().contains_key(k) ==> final(counts).map_view()[k] > 0 || old(counts).map_view().contains_key(k),
{
    let ghost m0 = counts.map_view();
    let mut i: usize = 0;
    while i < pieces.len()
        invariant
            counts.wf(),
            i <= pieces@.len(),
            forall|k: Seq<u8>| count_in(m0, k) + pieces@.len() <= usize::MAX,
            forall|k: Seq<u8>|
                #![trigger count_in(counts.map_view(), k)]
                count_in(counts.map_view(), k) == count_in(m0, k) + count_of(
                    pretoken_bytes(pieces@).take(i as int),
                    k,
                ),
            forall|k: Seq<u8>| #[trigger] counts.map_view().contains_key(k) ==> counts.map_view()[k] > 0 || m0.contains_key(k),
        decreases pieces@.len() - i,
    {
        let p = pieces[i].as_bytes();
        let ghost pb = pretoken_bytes(pieces@);
        proof {
            assert(pb.take(i + 1).drop_last() =~= pb.take(i as int));
            assert(pb.take(i + 1).last() == p@);
            lemma_count_of_le(pb.take(i as int), p@);
        }
        let cur = match counts.get(p) {
            Some(c) => *c,
            None => 0,
        };
        proof {
            assert(count_in(counts.map_view(), p@) == cur);
        }
        let ghost before = counts.map_view();
        counts.insert(p, cur + 1);
        proof {
            assert forall|k: Seq<u8>| #[trigger] count_in(counts.map_view(), k) == count_in(m0, k) + count_of(pb.take(i + 1), k) by {
                if k != p@ {
                    assert(count_in(counts.map_view(), k) == count_in(before, k));
                }
            }
        }
        i += 1;
    }
    proof {
        assert(pretoken_bytes(pieces@).take(pieces@.len() as int) =~= pretoken_bytes(pieces@));
    }
}

/// How often each pretoken occurs; the keys are exactly the pretokens
/// that occur.
pub fn pretoken_count(pieces: &Vec<Pretoken>) -> (r: ByteMap<usize>)
    ensures
        r.wf(),
        forall|k: Seq<u8>|
            #![trigger count_in(r.map_view(), k)]
            count_in(r.map_view(), k) == count_of(pretoken_bytes(pieces@), k),
        forall|k: Seq<u8>| #[trigger] r.map_view().contains_key(k) <==> pretoken_bytes(pieces@).contains(k),
{
    let mut counts = ByteMap::new();
    let n = pieces.len();
    add_pretoken_counts(&mut counts, pieces);
    proof {
        assert forall|k: Seq<u8>| #[trigger] counts.map_view().contains_key(k) <==> pretoken_bytes(pieces@).contains(k) by {
            lemma_count_of_pos(pretoken_bytes(pieces@), k);
            assert(count_in(counts.map_view(), k) == count_of(pretoken_bytes(pieces@), k));
        }
    }
    counts
}

/// The weight of `k`: the sum of the weights of its occurrences.
pub open spec fn weight_of(items: Seq<(Seq<u8>, usize)>, k: Seq<u8>) -> nat
    decreases items.len(),
{
    if items.len() == 0 {
        0
    } else {
        weight_of(items.drop_last(), k) + if items.last().0 == k {
            items.last().1 as nat
        } else {
            0nat
        }
    }
}

/// The sum of all weights.
pub open spec fn total_weight(items: Seq<(Seq<u8>, usize)>) -> nat
    decreases items.len(),
{
    if items.len() == 0 {
        0
    } else {
        total_weight(items.drop_last()) + items.last().1 as nat
    }
}

pub proof fn lemma_weight_le_total(items: Seq<(Seq<u8>, usize)>, k: Seq<u8>)
    ensures
        weight_of(items, k) <= total_weight(items),
    decreases items.len(),
{
    if items.len() > 0 {
        lemma_weight_le_total(items.drop_last(), k);
    }
}

pub open spec fn weighted_view(items: Seq<(&[u8], usize)>) -> Seq<(Seq<u8>, usize)> {
    items.map_values(|p: (&[u8], usize)| (p.0@, p.1))
}

/// Some item has key `k`.
pub open spec fn has_key(items: Seq<(Seq<u8>, usize)>, k: Seq<u8>) -> bool {
    exists|j: int| 0 <= j < items.len() && items[j].0 == k
}

/// The total weight of each pretoken; the keys are exactly the pretokens of
/// the items, those of weight 0 included.
pub fn count_pretokens_weighted(items: &[(&[u8], usize)]) -> (r: ByteMap<usize>)
    requires
        total_weight(weighted_view(items@)) <= usize::MAX,
    ensures
        r.wf(),
        forall|k: Seq<u8>|
            #![trigger count_in(r.map_view(), k)]
            count_in(r.map_view(), k) == weight_of(weighted_view(items@), k),
        forall|k: Seq<u8>| #[trigger] r.map_view().contains_key(k) <==> has_key(weighted_view(items@), k),
{
    let ghost w = weighted_view(items@);
    let mut counts: ByteMap<usize> = ByteMap::new();
    let mut i: usize = 0;
    while i < items.len()
        invariant
            counts.wf(),
            i <= items@.len(),
            w == weighted_view(items@),
            total_weight(w) <= usize::MAX,
            forall|k: Seq<u8>|
                #![trigger count_in(counts.map_view(), k)]
                count_in(counts.map_view(), k) == weight_of(w.take(i as int), k),
            forall|k: Seq<u8>| #[trigger] counts.map_view().contains_key(k) <==> has_key(w.take(i as int), k),
        decreases items@.len() - i,
    {
        let (token, weight) = items[i];
        proof {
            assert(w.take(i + 1).drop_last() =~= w.take(i as int));
            assert(w.take(i + 1).last() == (token@, weight));
            lemma_weight_le_total(w.take(i + 1), token@);
            lemma_total_prefix(w, i as int + 1);
        }
        let cur = match counts.get(token) {
            Some(c) => *c,
            None => 0,
        };
        proof {
            assert(count_in(counts.map_view(), token@) == cur);
        }
        let ghost before = counts.map_view();
        counts.insert(token, cur + weight);
        proof {
            assert forall|k: Seq<u8>| #[trigger] count_in(counts.map_view(), k) == weight_of(w.take(i + 1), k) by {
                if k != token@ {
                    assert(count_in(counts.map_view(), k) == count_in(before, k));
                }
            }
            let t = w.take(i + 1);
            assert forall|k: Seq<u8>| #[trigger] counts.map_view().contains_key(k) <==> has_key(t, k) by {
                if k == token@ {
                    assert(t[i as int].0 == k);
                } else {
                    if has_key(t, k) {
                        let j = choose|j: int| 0 <= j < t.len() && t[j].0 == k;
                        assert(j < i);
                        assert(w.take(i as int)[j] == t[j]);
                    }
                    if has_key(w.take(i as int), k) {
                        let j = choose|j: int| 0 <= j < i && w.take(i as int)[j].0 == k;
                        assert(t[j] == w.take(i as int)[j]);
                    }
                }
            }
        }
        i += 1;
    }
    proof {
        assert(w.take(items@.len() as int) =~= w);
    }
    counts
}

pub proof fn lemma_total_prefix(items: Seq<(Seq<u8>, usize)>, n: int)
    requires
        0 <= n <= items.len(),
    ensures
        total_weight(items.take(n)) <= total_weight(items),
    decreases items.len(),
{
    if n < items.len() {
        assert(items.drop_last().take(n) =~= items.take(n));
        lemma_total_prefix(items.drop_last(), n);
    } else {
        assert(items.take(n) =~= items);
    }
}

/// The weight of a table row: its frequency read as `usize` (as `as`
/// reads it), or 1 when the row has none.
pub open spec fn row_weight(f: Option<i64>) -> usize {
    match f {
        Some(f) => f as usize,
        None => 1,
    }
}

/// The rows as bytes and frequencies.
pub open spec fn rows_view<'a>(rows: Seq<(Option<&'a [u8]>, Option<i64>)>) -> Seq<(Option<Seq<u8>>, Option<i64>)> {
    rows.map_values(|r: (Option<&'a [u8]>, Option<i64>)| (
        match r.0 {
            Some(t) => Some(t@),
            None => None,
        },
        r.1,
    ))
}

/// The weighted count of `k` over the rows: for each row with text, its
/// weight times the number of times `k` is among the text's pretokens.
pub open spec fn rows_count(rows: Seq<(Option<Seq<u8>>, Option<i64>)>, k: Seq<u8>) -> nat
    decreases rows.len(),
{
    if rows.len() == 0 {
        0
    } else {
        rows_count(rows.drop_last(), k) + match rows.last().0 {
            Some(t) => row_weight(rows.last().1) as nat * count_of(pretokens_of(t), k),
            None => 0,
        }
    }
}

/// Each pretoken of a row's text with the row's weight, row after row.
pub open spec fn row_items(rows: Seq<(Option<Seq<u8>>, Option<i64>)>) -> Seq<(Seq<u8>, usize)>
    decreases rows.len(),
{
    if rows.len() == 0 {
        seq![]
    } else {
        row_items(rows.drop_last()) + match rows.last().0 {
            Some(t) => pretokens_of(t).map_values(|p: Seq<u8>| (p, row_weight(rows.last().1))),
            None => seq![],
        }
    }
}

proof fn lemma_weight_concat(a: Seq<(Seq<u8>, usize)>, b: Seq<(Seq<u8>, usize)>, k: Seq<u8>)
    ensures
        weight_of(a + b, k) == weight_of(a, k) + weight_of(b, k),
        total_weight(a + b) == total_weight(a) + total_weight(b),
    decreases b.len(),
{
    if b.len() == 0 {
        assert(a + b =~= a);
    } else {
        lemma_weight_concat(a, b.drop_last(), k);
        assert((a + b).drop_last() =~= a + b.drop_last());
        assert((a + b).last() == b.last());
    }
}

proof fn lemma_weight_of_same(ps: Seq<Seq<u8>>, w: usize, k: Seq<u8>)
    ensures
        weight_of(ps.map_values(|p: Seq<u8>| (p, w)), k) == w as nat * count_of(ps, k),
    decreases ps.len(),
{
    if ps.len() > 0 {
        lemma_weight_of_same(ps.drop_last(), w, k);
        assert(ps.map_values(|p: Seq<u8>| (p, w)).drop_last() =~= ps.drop_last().map_values(|p: Seq<u8>| (p, w)));
        let c = count_of(ps.drop_last(), k);
        let m = ps.map_values(|p: Seq<u8>| (p, w));
        assert(m.last() == (ps.last(), w));
        if ps.last() == k {
            assert(count_of(ps, k) == c + 1);
            assert(w as nat * (c + 1) == w as nat * c + w as nat) by (nonlinear_arith);
        } else {
            assert(count_of(ps, k) == c);
        }
    } else {
        assert(w as nat * 0 == 0);
    }
}

proof fn lemma_row_items_weight(rows: Seq<(Option<Seq<u8>>, Option<i64>)>, k: Seq<u8>)
    ensures
        weight_of(row_items(rows), k) == rows_count(rows, k),
    decreases rows.len(),
{
    if rows.len() > 0 {
        lemma_row_items_weight(rows.drop_last(), k);
        let last = match rows.last().0 {
            Some(t) => pretokens_of(t).map_values(|p: Seq<u8>| (p, row_weight(rows.last().1))),
            None => Seq::<(Seq<u8>, usize)>::empty(),
        };
        lemma_weight_concat(row_items(rows.drop_last()), last, k);
        match rows.last().0 {
            Some(t) => {
                lemma_weight_of_same(pretokens_of(t), row_weight(rows.last().1), k);
            },
            None => {},
        }
    }
}

/// Pretoken counts over table rows of text and frequency: a row without
/// text is skipped, one without a frequency weighs 1, and each pretoken of
/// a row's text counts the row's weight. The keys are exactly the
/// pretokens of the rows with text, those of weight 0 included.
pub fn count_rows_weighted<'a>(rows: &[(Option<&'a [u8]>, Option<i64>)]) -> (r: ByteMap<usize>)
    requires
        forall|i: int| 0 <= i < rows@.len() ==> ((#[trigger] rows@[i]).0 matches Some(t) ==> valid_utf8(t@)),
        total_weight(row_items(rows_view(rows@))) <= usize::MAX,
    ensures
        r.wf(),
        forall|k: Seq<u8>|
            #![trigger count_in(r.map_view(), k)]
            count_in(r.map_view(), k) == rows_count(rows_view(rows@), k),
        forall|k: Seq<u8>| #[trigger] r.map_view().contains_key(k) <==> has_key(row_items(rows_view(rows@)), k),
{
    let ghost rv = rows_view(rows@);
    let mut items: Vec<(&'a [u8], usize)> = Vec::new();
    let mut i: usize = 0;
    proof {
        assert(rv.take(0) =~= Seq::<(Option<Seq<u8>>, Option<i64>)>::empty());
        assert(weighted_view(items@) =~= row_items(rv.take(0)));
    }
    while i < rows.len()
        invariant
            i <= rows@.len(),
            rv == rows_view(rows@),
            rv.len() == rows@.len(),
            forall|x: int| 0 <= x < rows@.len() ==> ((#[trigger] rows@[x]).0 matches Some(t) ==> valid_utf8(t@)),
            weighted_view(items@) == row_items(rv.take(i as int)),
        decreases rows@.len() - i,
    {
        let ghost before = weighted_view(items@);
        proof {
            let t = rv.take(i + 1);
            assert(t.drop_last() =~= rv.take(i as int));
            assert(t.last() == rv[i as int]);
        }
        match rows[i].0 {
            Some(text) => {
                let w: usize = match rows[i].1 {
                    Some(f) => f as usize,
                    None => 1,
                };
                proof {
                    assert(rv[i as int].0 == Some(text@));
                    assert(w == row_weight(rv[i as int].1));
                }
                let mut ps: Vec<Pretoken<'a>> = Vec::new();
                let mut it = crate::pretokenize::state_machine::pretokenize_as_iter(text);
                proof {
                    assert(pretoken_bytes(Seq::<Pretoken>::empty()) =~= Seq::<Seq<u8>>::empty());
                }
                it.collect_into(&mut ps);
                let ghost pv = pretoken_bytes(ps@);
                proof {
                    assert(pv =~= pretokens_of(text@));
                }
                let mut j: usize = 0;
                while j < ps.len()
                    invariant
                        j <= ps@.len(),
                        pv == pretoken_bytes(ps@),
                        pv.len() == ps@.len(),
                        weighted_view(items@) == before + pv.take(j as int).map_values(|p: Seq<u8>| (p, w)),
                    decreases ps@.len() - j,
                {
                    let ghost b2 = weighted_view(items@);
                    items.push((ps[j].0, w));
                    proof {
                        assert(pv[j as int] == ps@[j as int].0@);
                        assert(pv.take(j + 1).map_values(|p: Seq<u8>| (p, w)) =~= pv.take(j as int).map_values(
                            |p: Seq<u8>| (p, w),
                        ).push((pv[j as int], w)));
                        assert(weighted_view(items@) =~= b2.push((pv[j as int], w)));
                    }
                    j += 1;
                }
                proof {
                    assert(pv.take(ps@.len() as int) =~= pv);
                    assert(weighted_view(items@) =~= row_items(rv.take(i + 1)));
                }
            },
            None => {
                proof {
                    assert(rv[i as int].0 is None);
                    assert(row_items(rv.take(i + 1)) =~= before);
                }
            },
        }
        i += 1;
    }
    proof {
        assert(rv.take(rows@.len() as int) =~= rv);
        assert forall|k: Seq<u8>| weight_of(weighted_view(items@), k) == rows_count(rv, k) by {
            lemma_row_items_weight(rv, k);
        }
    }
    count_pretokens_weighted(items.as_slice())
}

/// Some entry before position `i` has key `k`.
pub open spec fn seen(es: Seq<(Seq<u8>, usize)>, i: int, k: Seq<u8>) -> bool {
    exists|j: int| 0 <= j < i && es[j].0 == k
}

/// Adds the counts of `other` to `acc`: the counts of the union of the two
/// chunks they were taken from.
pub fn merge_counts(acc: &mut ByteMap<usize>, other: &ByteMap<usize>)
    requires
        old(acc).wf(),
        other.wf(),
        forall|k: Seq<u8>| count_in(old(acc).map_view(), k) + count_in(other.map_view(), k) <= usize::MAX,
    ensures
        final(acc).wf(),
        forall|k: Seq<u8>|
            #![trigger count_in(final(acc).map_view(), k)]
            count_in(final(acc).map_view(), k) == count_in(old(acc).map_view(), k) + count_in(
                other.map_view(),
                k,
            ),
{
    let ghost a0 = acc.map_view();
    let ghost es = other.entries();
    proof {
        other.lemma_entries();
    }
    let n = other.len();
    let mut i: usize = 0;
    while i < n
        invariant
            acc.wf(),
            other.wf(),
            n == es.len(),
            es == other.entries(),
            i <= n,
            forall|k: Seq<u8>| count_in(a0, k) + count_in(other.map_view(), k) <= usize::MAX,
            forall|k: Seq<u8>|
                #![trigger count_in(acc.map_view(), k)]
                count_in(acc.map_view(), k) == count_in(a0, k) + if seen(es, i as int, k) {
                    count_in(other.map_view(), k)
                } else {
                    0
                },
            forall|j: int| 0 <= j < es.len() ==> other.map_view().contains_key(#[trigger] es[j].0)
                && other.map_view()[es[j].0] == es[j].1,
            forall|j1: int, j2: int| 0 <= j1 < j2 < es.len() ==> #[trigger] es[j1].0 != #[trigger] es[j2].0,
        decreases n - i,
    {
        let (k, v) = other.entry_at(i);
        let cur = match acc.get(k) {
            Some(c) => *c,
            None => 0,
        };
        proof {
            assert(count_in(acc.map_view(), k@) == cur);
            assert(es[i as int].0 == k@);
            assert(!seen(es, i as int, k@)) by {
                if seen(es, i as int, k@) {
                    let j = choose|j: int| 0 <= j < i && es[j].0 == k@;
                    assert(es[j].0 != es[i as int].0);
                }
            }
            assert(count_in(other.map_view(), k@) == *v);
        }
        let ghost before = acc.map_view();
        acc.insert(k, cur + *v);
        proof {
            assert forall|key: Seq<u8>| #[trigger] count_in(acc.map_view(), key) == count_in(a0, key) + if seen(es, i + 1, key) {
                count_in(other.map_view(), key)
            } else {
                0
            } by {
                if key == k@ {
                    assert(es[i as int].0 == key);
                    assert(seen(es, i + 1, key));
                } else {
                    assert(count_in(acc.map_view(), key) == count_in(before, key));
                    if seen(es, i + 1, key) {
                        let j = choose|j: int| 0 <= j < i + 1 && es[j].0 == key;
                        assert(j < i);
                        assert(seen(es, i as int, key));
                    }
                    if seen(es, i as int, key) {
                        let j = choose|j: int| 0 <= j < i && es[j].0 == key;
                        assert(seen(es, i + 1, key));
                    }
                }
            }
        }
        i += 1;
    }
    proof {
        assert forall|k: Seq<u8>| #[trigger] count_in(acc.map_view(), k) == count_in(a0, k) + count_in(other.map_view(), k) by {
            if other.map_view().contains_key(k) {
                let j = choose|j: int| 0 <= j < es.len() && es[j].0 == k;
                assert(seen(es, n as int, k));
            } else {
                if seen(es, n as int, k) {
                    let j = choose|j: int| 0 <= j < n && es[j].0 == k;
                    assert(other.map_view().contains_key(es[j].0));
                }
            }
        }
    }
}

/// `sep` occurs in `b` at byte `j`.
pub open spec fn occurs_at(b: Seq<u8>, sep: Seq<u8>, j: int) -> bool {
    0 <= j && j + sep.len() <= b.len() && b.subrange(j, j + sep.len()) == sep
}

/// The first occurrence of `sep` at or after `i`.
pub open spec fn find_from(b: Seq<u8>, sep: Seq<u8>, i: int) -> Option<int>
    decreases b.len() + 1 - i,
{
    if i < 0 || i + sep.len() > b.len() {
        None
    } else if occurs_at(b, sep, i) {
        Some(i)
    } else {
        find_from(b, sep, i + 1)
    }
}

pub proof fn lemma_find_from(b: Seq<u8>, sep: Seq<u8>, i: int)
    requires
        0 <= i,
    ensures
        find_from(b, sep, i) matches Some(j) ==> i <= j && occurs_at(b, sep, j) && forall|x: int|
            i <= x < j ==> !occurs_at(b, sep, x),
        find_from(b, sep, i) is None ==> forall|x: int| i <= x ==> !occurs_at(b, sep, x),
    decreases b.len() + 1 - i,
{
    if i < 0 || i + sep.len() > b.len() {
    } else if occurs_at(b, sep, i) {
    } else {
        lemma_find_from(b, sep, i + 1);
    }
}

/// The parts of `b` from `i` on between the occurrences of `sep` (the
/// occurrences taken leftmost first, without overlaps), as `str::split`
/// gives them.
pub open spec fn split_parts(b: Seq<u8>, sep: Seq<u8>, i: int) -> Seq<Seq<u8>>
    decreases b.len() + 1 - i,
    when sep.len() > 0 && 0 <= i <= b.len()
{
    proof {
        lemma_find_from(b, sep, i);
    }
    match find_from(b, sep, i) {
        None => seq![b.subrange(i, b.len() as int)],
        Some(j) => seq![b.subrange(i, j)] + split_parts(b, sep, j + sep.len()),
    }
}

/// The first occurrence of `sep` in `b` at or after `from`.
pub fn find_separator(b: &[u8], sep: &[u8], from: usize) -> (r: Option<usize>)
    requires
        sep@.len() > 0,
        from <= b@.len(),
    ensures
        r matches Some(j) ==> find_from(b@, sep@, from as int) == Some(j as int),
        r is None ==> find_from(b@, sep@, from as int) is None,
{
    let n = b.len();
    let mut j = from;
    while j <= n && sep.len() <= n - j
        invariant
            n == b@.len(),
            from <= j,
            find_from(b@, sep@, from as int) == find_from(b@, sep@, j as int),
        decreases b@.len() + 1 - j,
    {
        let mut k: usize = 0;
        let mut same = true;
        while k < sep.len()
            invariant
                n == b@.len(),
                j + sep@.len() <= n,
                k <= sep@.len(),
                same == forall|x: int| 0 <= x < k ==> b@[j + x] == sep@[x],
            decreases sep@.len() - k,
        {
            if b[j + k] != sep[k] {
                same = false;
            }
            k += 1;
        }
        proof {
            if same {
                assert(b@.subrange(j as int, j + sep@.len()) =~= sep@);
            } else {
                if occurs_at(b@, sep@, j as int) {
                    assert forall|x: int| 0 <= x < sep@.len() implies b@[j + x] == sep@[x] by {
                        assert(b@.subrange(j as int, j + sep@.len())[x] == sep@[x]);
                    }
                }
            }
        }
        if same {
            return Some(j);
        }
        j += 1;
    }
    None
}

/// ASCII bytes are valid UTF-8.
pub proof fn lemma_ascii_valid(b: Seq<u8>)
    requires
        forall|i: int| 0 <= i < b.len() ==> #[trigger] b[i] < 128,
    ensures
        valid_utf8(b),
    decreases b.len(),
{
    if b.len() > 0 {
        let rest = b.subrange(1, b.len() as int);
        assert forall|i: int| 0 <= i < rest.len() implies #[trigger] rest[i] < 128 by {
            assert(rest[i] == b[i + 1]);
        }
        lemma_ascii_valid(rest);
        let b0 = b[0];
        assert(b0 <= 0x7f ==> (b0 & 0x7F) == b0) by (bit_vector);
        assert(pop_first_scalar(b) =~= rest);
    }
}

/// A byte of valid UTF-8 that is not a continuation byte starts the rest.
pub proof fn lemma_valid_at_lead(b: Seq<u8>, i: int)
    requires
        valid_utf8(b),
        0 <= i < b.len(),
        !is_continuation_byte(b[i]),
    ensures
        valid_from(b, i),
{
    is_char_boundary_iff_not_is_continuation_byte(b, i);
    valid_utf8_split(b, i);
}

/// Valid UTF-8 `sep` found where a char of valid UTF-8 `b` starts ends
/// where another starts (or at the end).
pub proof fn lemma_sep_ends_at_boundary(b: Seq<u8>, sep: Seq<u8>, j: int)
    requires
        valid_from(b, j),
        valid_utf8(sep),
        j + sep.len() <= b.len(),
        b.subrange(j, j + sep.len()) == sep,
    ensures
        valid_from(b, j + sep.len()),
    decreases sep.len(),
{
    if sep.len() > 0 {
        lemma_step(b, j);
        assert(sep.subrange(0, sep.len() as int) =~= sep);
        lemma_step(sep, 0);
        assert(suffix(b, j)[0] == sep[0]);
        assert(suffix(sep, 0)[0] == sep[0]);
        let w = width_at(b, j);
        assert(w == width_at(sep, 0));
        let rest = suffix(sep, w);
        assert(b.subrange(j + w, j + w + rest.len()) =~= rest);
        lemma_sep_ends_at_boundary(b, rest, j + w);
    }
}

/// A part of valid UTF-8 between two char starts (or the ends) is valid.
pub proof fn lemma_valid_between(b: Seq<u8>, i: int, j: int)
    requires
        valid_utf8(b),
        0 <= i <= j <= b.len(),
        valid_from(b, i),
        j == b.len() || valid_from(b, j),
    ensures
        valid_utf8(b.subrange(i, j)),
{
    let s = suffix(b, i);
    if j < b.len() {
        assert(suffix(b, j).len() > 0);
        assert(!is_continuation_byte(suffix(b, j)[0]));
        assert(s[j - i] == b[j]);
        is_char_boundary_iff_not_is_continuation_byte(s, j - i);
        valid_utf8_split(s, j - i);
        assert(s.subrange(0, j - i) =~= b.subrange(i, j));
    } else {
        assert(s =~= b.subrange(i, j));
    }
}

/// The parts of `b` between the occurrences of `sep`, as `(start, end)`.
pub fn split_ranges(b: &[u8], sep: &[u8]) -> (r: Vec<(usize, usize)>)
    requires
        sep@.len() > 0,
    ensures
        r@.len() == split_parts(b@, sep@, 0).len(),
        forall|k: int| #![trigger r@[k]] 0 <= k < r@.len() ==> {
            &&& r@[k].0 <= r@[k].1 <= b@.len()
            &&& b@.subrange(r@[k].0 as int, r@[k].1 as int) == split_parts(b@, sep@, 0)[k]
            &&& (r@[k].0 == 0 || (r@[k].0 >= sep@.len() && occurs_at(b@, sep@, r@[k].0 - sep@.len())))
            &&& (r@[k].1 == b@.len() || occurs_at(b@, sep@, r@[k].1 as int))
        },
{
    let mut out: Vec<(usize, usize)> = Vec::new();
    let mut i: usize = 0;
    let n = b.len();
    loop
        invariant
            n == b@.len(),
            i <= b@.len(),
            i == 0 || (i >= sep@.len() && occurs_at(b@, sep@, i - sep@.len())),
            sep@.len() > 0,
            out@.len() + split_parts(b@, sep@, i as int).len() == split_parts(b@, sep@, 0).len(),
            forall|k: int| 0 <= k < out@.len() ==> split_parts(b@, sep@, 0)[k] == #[trigger] b@.subrange(out@[k].0 as int, out@[k].1 as int),
            forall|k: int| 0 <= k < split_parts(b@, sep@, i as int).len() ==> split_parts(b@, sep@, 0)[out@.len() + k] == #[trigger] split_parts(b@, sep@, i as int)[k],
            forall|k: int| #![trigger out@[k]] 0 <= k < out@.len() ==> {
                &&& out@[k].0 <= out@[k].1 <= b@.len()
                &&& (out@[k].0 == 0 || (out@[k].0 >= sep@.len() && occurs_at(b@, sep@, out@[k].0 - sep@.len())))
                &&& (out@[k].1 == b@.len() || occurs_at(b@, sep@, out@[k].1 as int))
            },
        decreases b@.len() + 1 - i,
    {
        proof {
            lemma_find_from(b@, sep@, i as int);
        }
        let ghost rest = split_parts(b@, sep@, i as int);
        match find_separator(b, sep, i) {
            None => {
                out.push((i, b.len()));
                proof {
                    assert(rest == seq![b@.subrange(i as int, b@.len() as int)]);
                    assert(split_parts(b@, sep@, 0)[out@.len() - 1] == rest[0]);
                }
                return out;
            },
            Some(j) => {
                let ghost before = out@;
                out.push((i, j));
                proof {
                    let tail = split_parts(b@, sep@, j + sep@.len());
                    assert(rest == seq![b@.subrange(i as int, j as int)] + tail);
                    assert(split_parts(b@, sep@, 0)[before.len() as int] == rest[0]);
                    assert forall|k: int| 0 <= k < tail.len() implies split_parts(b@, sep@, 0)[out@.len() + k] == #[trigger] tail[k] by {
                        assert(rest[k + 1] == tail[k]);
                    }
                    assert forall|k: int| 0 <= k < out@.len() implies split_parts(b@, sep@, 0)[k] == #[trigger] b@.subrange(out@[k].0 as int, out@[k].1 as int) by {
                        if k < before.len() {
                            assert(out@[k] == before[k]);
                        }
                    }
                }
                i = j + sep.len();
            },
        }
    }
}

/// The separator between documents in a training corpus.
pub fn endoftext() -> (r: Vec<u8>)
    ensures
        r@ == endoftext_spec(),
{
    vec![60u8, 124, 101, 110, 100, 111, 102, 116, 101, 120, 116, 124, 62]
}

/// `<|endoftext|>`
pub open spec fn endoftext_spec() -> Seq<u8> {
    seq![60u8, 124, 101, 110, 100, 111, 102, 116, 101, 120, 116, 124, 62]
}

/// The parts of `b` between separators, as slices.
fn split_docs<'a>(b: &'a [u8], sep: &[u8]) -> (r: Vec<&'a [u8]>)
    requires
        valid_utf8(b@),
        sep@.len() > 0,
        valid_utf8(sep@),
    ensures
        r@.map_values(|d: &[u8]| d@) == split_parts(b@, sep@, 0),
        forall|i: int| 0 <= i < r@.len() ==> valid_utf8(#[trigger] r@[i]@),
{
    let ranges = split_ranges(b, sep);
    let mut docs: Vec<&'a [u8]> = Vec::new();
    let mut k: usize = 0;
    while k < ranges.len()
        invariant
            k <= ranges@.len(),
            valid_utf8(b@),
            sep@.len() > 0,
            valid_utf8(sep@),
            ranges@.len() == split_parts(b@, sep@, 0).len(),
            forall|x: int| #![trigger ranges@[x]] 0 <= x < ranges@.len() ==> {
                &&& ranges@[x].0 <= ranges@[x].1 <= b@.len()
                &&& b@.subrange(ranges@[x].0 as int, ranges@[x].1 as int) == split_parts(b@, sep@, 0)[x]
                &&& (ranges@[x].0 == 0 || (ranges@[x].0 >= sep@.len() && occurs_at(b@, sep@, ranges@[x].0 - sep@.len())))
                &&& (ranges@[x].1 == b@.len() || occurs_at(b@, sep@, ranges@[x].1 as int))
            },
            docs@.len() == k,
            forall|x: int| 0 <= x < k ==> #[trigger] docs@[x]@ == split_parts(b@, sep@, 0)[x],
            forall|x: int| 0 <= x < k ==> valid_utf8(#[trigger] docs@[x]@),
        decreases ranges@.len() - k,
    {
        let (s, e) = ranges[k];
        proof {
            let i = s as int;
            let j = e as int;
            assert(sep@.subrange(0, sep@.len() as int) =~= sep@);
            assert(!is_continuation_byte(sep@[0]));
            if i > 0 {
                let o = i - sep@.len();
                assert(b@.subrange(o, o + sep@.len())[0] == b@[o]);
                lemma_valid_at_lead(b@, o);
                lemma_sep_ends_at_boundary(b@, sep@, o);
            } else {
                assert(suffix(b@, 0) =~= b@);
            }
            if j < b@.len() {
                assert(b@.subrange(j, j + sep@.len())[0] == b@[j]);
                lemma_valid_at_lead(b@, j);
            }
            lemma_valid_between(b@, i, j);
        }
        docs.push(slice_subrange(b, s, e));
        k += 1;
    }
    proof {
        assert(docs@.map_values(|d: &[u8]| d@) =~= split_parts(b@, sep@, 0));
    }
    docs
}

/// How often each pretoken occurs in `bytes`, where `<|endoftext|>`
/// separates documents and is not itself pretokenized.
pub fn pretokenize_count(bytes: &[u8]) -> (r: ByteMap<usize>)
    requires
        valid_utf8(bytes@),
    ensures
        r.wf(),
        forall|k: Seq<u8>|
            #![trigger count_in(r.map_view(), k)]
            count_in(r.map_view(), k) == count_of(
                docs_pretokens(split_parts(bytes@, endoftext_spec(), 0)),
                k,
            ),
        forall|k: Seq<u8>| #[trigger] r.map_view().contains_key(k) <==> docs_pretokens(
            split_parts(bytes@, endoftext_spec(), 0),
        ).contains(k),
{
    let sep = endoftext();
    proof {
        lemma_ascii_valid(sep@);
    }
    let docs = split_docs(bytes, sep.as_slice());
    let pieces = pretokenize_doc_iterable(docs.as_slice());
    pretoken_count(&pieces)
}

/// How often each pretoken occurs in `bytes`, where `sep` separates
/// documents and is not itself pretokenized.
pub fn pretokenize_count_sep(bytes: &[u8], sep: &[u8]) -> (r: ByteMap<usize>)
    requires
        valid_utf8(bytes@),
        valid_utf8(sep@),
        sep@.len() > 0,
    ensures
        r.wf(),
        forall|k: Seq<u8>|
            #![trigger count_in(r.map_view(), k)]
            count_in(r.map_view(), k) == count_of(docs_pretokens(split_parts(bytes@, sep@, 0)), k),
        forall|k: Seq<u8>| #[trigger] r.map_view().contains_key(k) <==> docs_pretokens(split_parts(bytes@, sep@, 0)).contains(
            k,
        ),
{
    let docs = split_docs(bytes, sep);
    let pieces = pretokenize_doc_iterable(docs.as_slice());
    pretoken_count(&pieces)
}

/// The same counts as [`pretokenize_count`].
pub fn pretokenize_with_endoftext(bytes: &[u8]) -> (r: ByteMap<usize>)
    requires
        valid_utf8(bytes@),
    ensures
        r.wf(),
        forall|k: Seq<u8>|
            #![trigger count_in(r.map_view(), k)]
            count_in(r.map_view(), k) == count_of(
                docs_pretokens(split_parts(bytes@, endoftext_spec(), 0)),
                k,
            ),
        forall|k: Seq<u8>| #[trigger] r.map_view().contains_key(k) <==> docs_pretokens(
            split_parts(bytes@, endoftext_spec(), 0),
        ).contains(k),
{
    let sep = endoftext();
    proof {
        lemma_ascii_valid(sep@);
    }
    let docs = split_docs(bytes, sep.as_slice());
    let pieces = pretokenize_doc_iterable(docs.as_slice());
    pretoken_count(&pieces)
}

/// The first position `j >= i` with `s[j] == '.'` and `s[j + 1] == ' '`.
pub open spec fn first_dot_space(s: Seq<u8>, i: int) -> Option<int>
    decreases s.len() - i,
{
    if i < 0 || i + 1 >= s.len() {
        None
    } else if s[i] == 46 && s[i + 1] == 32 {
        Some(i)
    } else {
        first_dot_space(s, i + 1)
    }
}

pub proof fn lemma_first_dot_space(s: Seq<u8>, i: int)
    requires
        0 <= i,
    ensures
        first_dot_space(s, i) matches Some(j) ==> i <= j && j + 1 < s.len() && s[j] == 46 && s[j + 1] == 32,
    decreases s.len() - i,
{
    if i + 1 < s.len() && !(s[i] == 46 && s[i + 1] == 32) {
        lemma_first_dot_space(s, i + 1);
    }
}

/// A `". "` at `k >= i` bounds the first one from `i` on.
proof fn lemma_first_dot_space_min(s: Seq<u8>, i: int, k: int)
    requires
        0 <= i <= k,
        k + 1 < s.len(),
        s[k] == 46,
        s[k + 1] == 32,
    ensures
        first_dot_space(s, i) matches Some(j) && i <= j <= k,
    decreases k - i,
{
    if !(s[i] == 46 && s[i + 1] == 32) {
        lemma_first_dot_space_min(s, i + 1, k);
    }
}

/// Cutting after the first `". "` from a later start never cuts earlier.
proof fn lemma_cut_monotone(b: Seq<u8>, s1: int, s2: int)
    requires
        0 <= s1 <= s2 <= b.len(),
        first_dot_space(b.subrange(s1, b.len() as int), 0) is Some,
        first_dot_space(b.subrange(s2, b.len() as int), 0) is Some,
    ensures
        s1 + first_dot_space(b.subrange(s1, b.len() as int), 0)->0 <= s2 + first_dot_space(
            b.subrange(s2, b.len() as int),
            0,
        )->0,
{
    let t1 = b.subrange(s1, b.len() as int);
    let t2 = b.subrange(s2, b.len() as int);
    lemma_first_dot_space(t2, 0);
    let j2 = first_dot_space(t2, 0)->0;
    let k = s2 - s1 + j2;
    assert(t1[k] == t2[j2] && t1[k + 1] == t2[j2 + 1]);
    lemma_first_dot_space_min(t1, 0, k);
}

/// Offset just past the `.` of the first `". "` in `input`.
fn advance_to_boundary(input: &[u8]) -> (r: usize)
    requires
        first_dot_space(input@, 0) is Some,
    ensures
        first_dot_space(input@, 0) == Some(r - 1),
        1 <= r < input@.len(),
{
    let n = input.len();
    let mut i: usize = 0;
    proof {
        lemma_first_dot_space(input@, 0);
    }
    while i + 1 < n
        invariant
            n == input@.len(),
            first_dot_space(input@, 0) == first_dot_space(input@, i as int),
            first_dot_space(input@, 0) is Some,
        decreases n - i,
    {
        if input[i] == 46 && input[i + 1] == 32 {
            return i + 1;
        }
        i += 1;
    }
    proof {
        assert(first_dot_space(input@, i as int) is None);
    }
    0
}

/// Where chunk `i` of `n` equal chunks of a `len`-byte buffer would start.
pub open spec fn chunk_start(len: int, n: int, i: int) -> int {
    let chunk = (len + n - 1) / n;
    if i * chunk < len {
        i * chunk
    } else {
        len
    }
}

/// Cut points that split `bytes` into `n_threads` chunks of about the same
/// size, each inner cut moved forward to the next `". "` and made between
/// its period and its space: a chunk ends with the period, the next one
/// starts with the space.
pub fn find_boundaries(bytes: &[u8], n_threads: usize) -> (r: Vec<usize>)
    requires
        n_threads >= 1,
        bytes@.len() + n_threads < usize::MAX,
        forall|i: int|
            1 <= i < n_threads ==> first_dot_space(
                bytes@.subrange(chunk_start(bytes@.len() as int, n_threads as int, i), bytes@.len() as int),
                0,
            ) is Some,
    ensures
        r@.len() == n_threads + 1,
        r@[0] == 0,
        r@[n_threads as int] == bytes@.len(),
        forall|i: int| #![trigger r@[i]]
            1 <= i < n_threads ==> {
                let s = chunk_start(bytes@.len() as int, n_threads as int, i);
                first_dot_space(bytes@.subrange(s, bytes@.len() as int), 0) == Some(r@[i] - s - 1)
            },
        forall|i: int, j: int| 0 <= i <= j <= n_threads ==> #[trigger] r@[i] <= #[trigger] r@[j],
{
    let len = bytes.len();
    let n = n_threads;
    let chunk_size = (len + n - 1) / n;
    proof {
        vstd::arithmetic::div_mod::lemma_fundamental_div_mod((len + n - 1) as int, n as int);
        let x = (len + n - 1) as int;
        assert(chunk_size as int == x / (n as int));
        assert(x == (n as int) * (x / (n as int)) + x % (n as int));
        assert(chunk_size * n <= len + n - 1) by (nonlinear_arith)
            requires
                x == (n as int) * (chunk_size as int) + x % (n as int),
                x % (n as int) >= 0,
                x == len + n - 1,
        ;
    }
    let mut boundaries: Vec<usize> = Vec::new();
    let mut i: usize = 0;
    while i <= n
        invariant
            len == bytes@.len(),
            n == n_threads,
            n >= 1,
            len + n < usize::MAX,
            chunk_size == (len + n - 1) / (n as int),
            chunk_size * n <= len + n - 1,
            i <= n + 1,
            boundaries@.len() == i,
            forall|k: int| 0 <= k < i ==> #[trigger] boundaries@[k] == chunk_start(len as int, n as int, k),
        decreases n + 1 - i,
    {
        assert(i * chunk_size <= n * chunk_size) by (nonlinear_arith)
            requires
                i <= n,
        ;
        let start = if i * chunk_size < len {
            i * chunk_size
        } else {
            len
        };
        boundaries.push(start);
        i += 1;
    }
    proof {
        assert(n * chunk_size >= len) by (nonlinear_arith)
            requires
                chunk_size == (len + n - 1) / (n as int),
                n >= 1,
        {
            vstd::arithmetic::div_mod::lemma_fundamental_div_mod((len + n - 1) as int, n as int);
        }
    }
    let mut k: usize = 1;
    while k < n
        invariant
            len == bytes@.len(),
            n == n_threads,
            1 <= k <= n,
            boundaries@.len() == n + 1,
            boundaries@[0] == 0,
            boundaries@[n as int] == len,
            forall|x: int|
                1 <= x < n_threads ==> first_dot_space(
                    bytes@.subrange(chunk_start(len as int, n as int, x), len as int),
                    0,
                ) is Some,
            forall|x: int| k <= x < n ==> #[trigger] boundaries@[x] == chunk_start(len as int, n as int, x),
            forall|x: int| #![trigger boundaries@[x]]
                1 <= x < k ==> {
                    let s = chunk_start(len as int, n as int, x);
                    first_dot_space(bytes@.subrange(s, len as int), 0) == Some(boundaries@[x] - s - 1)
                },
        decreases n - k,
    {
        let s = boundaries[k];
        let adv = advance_to_boundary(slice_subrange(bytes, s, len));
        boundaries.set(k, s + adv);
        k += 1;
    }
    proof {
        let b = bytes@;
        let l = len as int;
        let nn = n as int;
        assert forall|x: int| 1 <= x < nn implies 0 <= #[trigger] boundaries@[x] <= l by {
            let s = chunk_start(l, nn, x);
            lemma_first_dot_space(b.subrange(s, l), 0);
        }
        assert forall|i: int, j: int| 0 <= i <= j <= nn implies #[trigger] boundaries@[i] <= #[trigger] boundaries@[j] by {
            if 1 <= i && j < nn && i < j {
                let c = (l + nn - 1) / nn;
                assert(i * c <= j * c) by (nonlinear_arith)
                    requires
                        i <= j,
                        c >= 0,
                ;
                assert(l + nn - 1 >= 0);
                assert(c >= 0) by (nonlinear_arith)
                    requires
                        l + nn - 1 >= 0,
                        nn >= 1,
                        c == (l + nn - 1) / nn,
                ;
                lemma_cut_monotone(b, chunk_start(l, nn, i), chunk_start(l, nn, j));
            }
        }
    }
    boundaries
}

/// Whether `input` holds a `". "`.
fn has_dot_space(input: &[u8]) -> (r: bool)
    ensures
        r == first_dot_space(input@, 0) is Some,
{
    let n = input.len();
    if n < 2 {
        return false;
    }
    let mut i: usize = 0;
    while i < n - 1
        invariant
            n == input@.len(),
            n >= 2,
            i <= n - 1,
            first_dot_space(input@, 0) == first_dot_space(input@, i as int),
        decreases n - i,
    {
        if input[i] == 46 && input[i + 1] == 32 {
            return true;
        }
        i += 1;
    }
    false
}

/// Whether `bytes` can be cut into `n` chunks as [`find_boundaries`] does:
/// every chunk after the first has a `". "` from its start on.
pub open spec fn cuttable(bytes: Seq<u8>, n: int) -> bool {
    &&& n >= 1
    &&& bytes.len() + n < usize::MAX
    &&& forall|i: int|
        1 <= i < n ==> first_dot_space(bytes.subrange(chunk_start(bytes.len() as int, n, i), bytes.len() as int), 0)
            is Some
}

/// Whether [`find_boundaries`] can cut `bytes` into `n_threads` chunks.
pub fn has_boundaries(bytes: &[u8], n_threads: usize) -> (r: bool)
    ensures
        r == cuttable(bytes@, n_threads as int),
{
    let len = bytes.len();
    let n = n_threads;
    if n == 0 || len >= usize::MAX - n {
        return false;
    }
    let chunk_size = (len + n - 1) / n;
    proof {
        vstd::arithmetic::div_mod::lemma_fundamental_div_mod((len + n - 1) as int, n as int);
        let x = (len + n - 1) as int;
        assert(chunk_size as int == x / (n as int));
        assert(chunk_size * n <= len + n - 1) by (nonlinear_arith)
            requires
                x == (n as int) * (chunk_size as int) + x % (n as int),
                x % (n as int) >= 0,
                x == len + n - 1,
        ;
    }
    let mut i: usize = 1;
    while i < n
        invariant
            len == bytes@.len(),
            n == n_threads,
            n >= 1,
            len + n < usize::MAX,
            chunk_size == (len + n - 1) / (n as int),
            chunk_size * n <= len + n - 1,
            1 <= i <= n,
            forall|x: int|
                1 <= x < i ==> first_dot_space(bytes@.subrange(chunk_start(len as int, n as int, x), len as int), 0)
                    is Some,
        decreases n - i,
    {
        assert(i * chunk_size <= n * chunk_size) by (nonlinear_arith)
            requires
                i <= n,
        ;
        let start = if i * chunk_size < len {
            i * chunk_size
        } else {
            len
        };
        assert(start == chunk_start(len as int, n as int, i as int));
        if !has_dot_space(slice_subrange(bytes, start, len)) {
            assert(!cuttable(bytes@, n_threads as int)) by {
                assert(first_dot_space(bytes@.subrange(chunk_start(len as int, n as int, i as int), len as int), 0)
                    is None);
            }
            return false;
        }
        i += 1;
    }
    true
}

/// `rayon::current_num_threads`: the size of the current thread pool. It
/// depends on the machine and the environment; rayon-core builds every
/// pool with at least one thread (`ThreadPoolBuilder::get_num_threads`
/// falls back to 1), which is all that is stated of it.
#[verifier::external_body]
fn current_num_threads() -> (n: usize)
    ensures
        n >= 1,
{
    rayon::current_num_threads()
}

/// The size `n` of the current thread pool, and the cut points of
/// [`find_boundaries`] for `n` chunks; `None` exactly when the buffer
/// cannot be cut into `n` chunks that way.
pub fn find_boundaries_for_pool(bytes: &[u8]) -> (r: (usize, Option<Vec<usize>>))
    ensures
        r.0 >= 1,
        r.1 is Some <==> cuttable(bytes@, r.0 as int),
        r.1 matches Some(v) ==> {
            let n = r.0 as int;
            &&& v@.len() == n + 1
            &&& v@[0] == 0
            &&& v@[n] == bytes@.len()
            &&& forall|i: int| #![trigger v@[i]]
                1 <= i < n ==> {
                    let s = chunk_start(bytes@.len() as int, n, i);
                    first_dot_space(bytes@.subrange(s, bytes@.len() as int), 0) == Some(v@[i] - s - 1)
                }
            &&& forall|i: int, j: int| 0 <= i <= j <= n ==> #[trigger] v@[i] <= #[trigger] v@[j]
        },
{
    let n = current_num_threads();
    if has_boundaries(bytes, n) {
        (n, Some(find_boundaries(bytes, n)))
    } else {
        (n, None)
    }
}

} // verus!
