//! Byte-pair merging: repeatedly merge the adjacent pair of lowest rank.
use vstd::prelude::*;
use std::collections::HashMap;
use crate::token::TokenId;

verus! {

broadcast use vstd::std_specs::hash::group_hash_axioms;

/// The `u64` key of the pair `(a, b)`.
pub open spec fn pair_key_spec(a: u32, b: u32) -> u64 {
    ((a as int) * 0x1_0000_0000 + (b as int)) as u64
}

pub fn pair_key(a: u32, b: u32) -> (k: u64)
    ensures
        k == pair_key_spec(a, b),
{
    let r = ((a as u64) << 32u64) | (b as u64);
    assert(((a as u64) << 32u64) | (b as u64) == ((a as u64) * 0x1_0000_0000u64 + (b as u64)) as u64
        && (a as u64) * 0x1_0000_0000u64 + (b as u64) < 0x1_0000_0000_0000_0000) by (bit_vector);
    r
}

pub proof fn lemma_pair_key_injective(a: u32, b: u32, c: u32, d: u32)
    ensures
        pair_key_spec(a, b) == pair_key_spec(c, d) ==> a == c && b == d,
{
    assert((a as int) * 0x1_0000_0000 + (b as int) < 0x1_0000_0000_0000_0000) by (nonlinear_arith)
        requires a < 0x1_0000_0000, b < 0x1_0000_0000;
    assert((c as int) * 0x1_0000_0000 + (d as int) < 0x1_0000_0000_0000_0000) by (nonlinear_arith)
        requires c < 0x1_0000_0000, d < 0x1_0000_0000;
    if pair_key_spec(a, b) == pair_key_spec(c, d) {
        assert(a == c && b == d) by (nonlinear_arith)
            requires
                (a as int) * 0x1_0000_0000 + (b as int) == (c as int) * 0x1_0000_0000 + (d as int),
                0 <= b < 0x1_0000_0000,
                0 <= d < 0x1_0000_0000,
                0 <= a,
                0 <= c,
        ;
    }
}

/// The rule for `(a, b)` in `r`.
pub open spec fn rule_in(r: Map<(u32, u32), (u32, u32)>, a: u32, b: u32) -> Option<(u32, u32)> {
    if r.contains_key((a, b)) {
        Some(r[(a, b)])
    } else {
        None
    }
}

/// Merge rules: the pair `(a, b)` merges into `merged`, with priority `rank`
/// (lower ranks merge first).
pub struct Merges {
    map: HashMap<u64, (TokenId, u32)>,
    pairs: Vec<(TokenId, TokenId)>,
}

impl Merges {
    /// The rules: `(a, b) -> (merged, rank)`.
    pub closed spec fn rules(&self) -> Map<(u32, u32), (u32, u32)> {
        Map::new(
            |k: (u32, u32)| self.map@.contains_key(pair_key_spec(k.0, k.1)),
            |k: (u32, u32)| (self.map@[pair_key_spec(k.0, k.1)].0.0, self.map@[pair_key_spec(k.0, k.1)].1),
        )
    }

    /// The rule for `(a, b)`: `(merged, rank)`.
    pub open spec fn rule(&self, a: u32, b: u32) -> Option<(u32, u32)> {
        rule_in(self.rules(), a, b)
    }

    /// The pairs that have a rule, in the order they were added.
    pub closed spec fn pair_list(&self) -> Seq<(TokenId, TokenId)> {
        self.pairs@
    }

    pub closed spec fn wf(&self) -> bool {
        &&& forall|i: int| #![trigger self.pairs@[i]] 0 <= i < self.pairs@.len() ==> self.map@.contains_key(
            pair_key_spec(self.pairs@[i].0.0, self.pairs@[i].1.0),
        )
        &&& forall|k: u64| #[trigger] self.map@.contains_key(k) ==> exists|i: int|
            0 <= i < self.pairs@.len() && pair_key_spec(self.pairs@[i].0.0, self.pairs@[i].1.0) == k
        &&& forall|i: int, j: int| 0 <= i < j < self.pairs@.len() ==> #[trigger] self.pairs@[i] != #[trigger] self.pairs@[j]
    }

    /// Every listed pair has a rule, and every rule is listed.
    pub proof fn lemma_pairs(&self)
        requires
            self.wf(),
        ensures
            forall|i: int| #![trigger self.pair_list()[i]] 0 <= i < self.pair_list().len() ==> self.rule(
                self.pair_list()[i].0.0,
                self.pair_list()[i].1.0,
            ) is Some,
            forall|a: u32, b: u32| #[trigger] self.rule(a, b) is Some ==> exists|i: int|
                0 <= i < self.pair_list().len() && self.pair_list()[i] == (TokenId(a), TokenId(b)),
    {
        assert forall|a: u32, b: u32| #[trigger] self.rule(a, b) is Some implies exists|i: int|
            0 <= i < self.pair_list().len() && self.pair_list()[i] == (TokenId(a), TokenId(b)) by {
            let k = pair_key_spec(a, b);
            let i = choose|i: int| 0 <= i < self.pairs@.len() && pair_key_spec(self.pairs@[i].0.0, self.pairs@[i].1.0) == k;
            lemma_pair_key_injective(self.pairs@[i].0.0, self.pairs@[i].1.0, a, b);
        }
    }

    pub fn new() -> (m: Self)
        ensures
            m.wf(),
            m.rules() == Map::<(u32, u32), (u32, u32)>::empty(),
            forall|a: u32, b: u32| #[trigger] m.rule(a, b) is None,
            m.pair_list().len() == 0,
    {
        let m = Merges { map: HashMap::new(), pairs: Vec::new() };
        assert(m.rules() =~= Map::<(u32, u32), (u32, u32)>::empty());
        m
    }

    /// Adds (or replaces) the rule for `(a, b)`.
    pub fn insert(&mut self, a: TokenId, b: TokenId, merged: TokenId, rank: u32)
        requires
            old(self).wf(),
        ensures
            final(self).wf(),
            final(self).rules() == old(self).rules().insert((a.0, b.0), (merged.0, rank)),
            final(self).rule(a.0, b.0) == Some((merged.0, rank)),
            forall|x: u32, y: u32|
                (x, y) != (a.0, b.0) ==> #[trigger] final(self).rule(x, y) == old(self).rule(x, y),
            old(self).rule(a.0, b.0) is None ==> final(self).pair_list() == old(self).pair_list().push((a, b)),
            old(self).rule(a.0, b.0) is Some ==> final(self).pair_list() == old(self).pair_list(),
    {
        let k = pair_key(a.0, b.0);
        let ghost old_self = *self;
        let prev = self.map.insert(k, (merged, rank));
        if prev.is_none() {
            self.pairs.push((a, b));
        }
        proof {
            assert forall|x: u32, y: u32| (x, y) != (a.0, b.0) implies #[trigger] self.rule(x, y)
                == old_self.rule(x, y) by {
                lemma_pair_key_injective(x, y, a.0, b.0);
            }
            assert(self.rules() =~= old_self.rules().insert((a.0, b.0), (merged.0, rank))) by {
                assert forall|xy: (u32, u32)| #[trigger] self.rules().contains_key(xy) == old_self.rules().insert((a.0, b.0), (merged.0, rank)).contains_key(xy) by {
                    lemma_pair_key_injective(xy.0, xy.1, a.0, b.0);
                }
                assert forall|xy: (u32, u32)| #[trigger] self.rules().contains_key(xy) implies self.rules()[xy] == old_self.rules().insert((a.0, b.0), (merged.0, rank))[xy] by {
                    lemma_pair_key_injective(xy.0, xy.1, a.0, b.0);
                }
            }
            let n = old_self.pairs@.len();
            assert forall|i: int| #![trigger self.pairs@[i]] 0 <= i < self.pairs@.len() implies self.map@.contains_key(
                pair_key_spec(self.pairs@[i].0.0, self.pairs@[i].1.0),
            ) by {
                if i < n {
                    assert(self.pairs@[i] == old_self.pairs@[i]);
                }
            }
            assert forall|kk: u64| #[trigger] self.map@.contains_key(kk) implies exists|i: int|
                0 <= i < self.pairs@.len() && pair_key_spec(self.pairs@[i].0.0, self.pairs@[i].1.0) == kk by {
                if kk == k {
                    if prev.is_none() {
                        assert(self.pairs@[n as int] == (a, b));
                    } else {
                        let i = choose|i: int| 0 <= i < old_self.pairs@.len() && pair_key_spec(old_self.pairs@[i].0.0, old_self.pairs@[i].1.0) == kk;
                        assert(self.pairs@[i] == old_self.pairs@[i]);
                    }
                } else {
                    let i = choose|i: int| 0 <= i < old_self.pairs@.len() && pair_key_spec(old_self.pairs@[i].0.0, old_self.pairs@[i].1.0) == kk;
                    assert(self.pairs@[i] == old_self.pairs@[i]);
                }
            }
            assert forall|i: int, j: int| 0 <= i < j < self.pairs@.len() implies #[trigger] self.pairs@[i] != #[trigger] self.pairs@[j] by {
                if j == n && prev.is_none() {
                    assert(self.pairs@[i] == old_self.pairs@[i]);
                    if self.pairs@[i] == (a, b) {
                        assert(old_self.map@.contains_key(k));
                    }
                } else {
                    assert(self.pairs@[i] == old_self.pairs@[i]);
                    assert(self.pairs@[j] == old_self.pairs@[j]);
                }
            }
        }
    }

    /// The rule for `(a, b)`.
    pub fn get(&self, a: TokenId, b: TokenId) -> (r: Option<(TokenId, u32)>)
        ensures
            r matches Some(v) ==> self.rule(a.0, b.0) == Some((v.0.0, v.1)),
            r is None ==> self.rule(a.0, b.0) is None,
    {
        let k = pair_key(a.0, b.0);
        match self.map.get(&k) {
            Some(v) => Some(*v),
            None => None,
        }
    }

    /// The number of rules.
    pub fn len(&self) -> (n: usize)
        ensures
            n == self.pair_list().len(),
    {
        self.pairs.len()
    }

    /// The pair at position `i` of [`Self::pair_list`].
    pub fn pair_at(&self, i: usize) -> (r: (TokenId, TokenId))
        requires
            i < self.pair_list().len(),
        ensures
            r == self.pair_list()[i as int],
    {
        self.pairs[i]
    }

    /// A copy with the same rules.
    pub fn copy(&self) -> (r: Merges)
        requires
            self.wf(),
        ensures
            r.wf(),
            r.rules() == self.rules(),
            forall|a: u32, b: u32| #[trigger] r.rule(a, b) == self.rule(a, b),
            r.pair_list() == self.pair_list(),
    {
        let mut m = Merges::new();
        let mut i: usize = 0;
        proof {
            self.lemma_pairs();
        }
        while i < self.pairs.len()
            invariant
                self.wf(),
                m.wf(),
                i <= self.pairs@.len(),
                m.pairs@ == self.pairs@.take(i as int),
                forall|a: u32, b: u32| #[trigger] m.rule(a, b) == if exists|j: int| 0 <= j < i && self.pairs@[j] == (TokenId(a), TokenId(b)) {
                    self.rule(a, b)
                } else {
                    None
                },
            decreases self.pairs@.len() - i,
        {
            let (a, b) = self.pairs[i];
            let (merged, rank) = match self.get(a, b) {
                Some(v) => v,
                None => (TokenId(0), 0),
            };
            assert(self.rule(a.0, b.0) is Some);
            let ghost before = m;
            m.insert(a, b, merged, rank);
            proof {
                assert(!(exists|j: int| 0 <= j < i && self.pairs@[j] == (a, b))) by {
                    if exists|j: int| 0 <= j < i && self.pairs@[j] == (a, b) {
                        let j = choose|j: int| 0 <= j < i && self.pairs@[j] == (a, b);
                        assert(self.pairs@[j] != self.pairs@[i as int]);
                    }
                }
                assert(!before.map@.contains_key(pair_key_spec(a.0, b.0))) by {
                    if before.map@.contains_key(pair_key_spec(a.0, b.0)) {
                        let j = choose|j: int| 0 <= j < before.pairs@.len() && pair_key_spec(before.pairs@[j].0.0, before.pairs@[j].1.0) == pair_key_spec(a.0, b.0);
                        lemma_pair_key_injective(before.pairs@[j].0.0, before.pairs@[j].1.0, a.0, b.0);
                        assert(before.pairs@[j] == self.pairs@[j]);
                    }
                }
                assert(m.pairs@ =~= self.pairs@.take(i + 1));
                assert forall|x: u32, y: u32| #[trigger] m.rule(x, y) == if exists|j: int| 0 <= j < i + 1 && self.pairs@[j] == (TokenId(x), TokenId(y)) {
                    self.rule(x, y)
                } else {
                    None
                } by {
                    if (x, y) != (a.0, b.0) {
                        if exists|j: int| 0 <= j < i + 1 && self.pairs@[j] == (TokenId(x), TokenId(y)) {
                            let j = choose|j: int| 0 <= j < i + 1 && self.pairs@[j] == (TokenId(x), TokenId(y));
                            assert(j != i);
                            assert(exists|j: int| 0 <= j < i && self.pairs@[j] == (TokenId(x), TokenId(y)));
                        }
                    } else {
                        assert(self.pairs@[i as int] == (TokenId(x), TokenId(y)));
                    }
                }
            }
            i += 1;
        }
        proof {
            assert(self.pairs@.take(self.pairs@.len() as int) =~= self.pairs@);
            assert forall|a: u32, b: u32| #[trigger] m.rule(a, b) == self.rule(a, b) by {
                if self.rule(a, b) is Some {
                    let j = choose|j: int| 0 <= j < self.pair_list().len() && self.pair_list()[j] == (TokenId(a), TokenId(b));
                    assert(exists|j: int| 0 <= j < i && self.pairs@[j] == (TokenId(a), TokenId(b)));
                }
            }
            assert(m.rules() =~= self.rules()) by {
                assert forall|xy: (u32, u32)| #[trigger] m.rules().contains_key(xy) == self.rules().contains_key(xy) by {
                    assert(m.rule(xy.0, xy.1) == self.rule(xy.0, xy.1));
                }
                assert forall|xy: (u32, u32)| #[trigger] m.rules().contains_key(xy) implies m.rules()[xy] == self.rules()[xy] by {
                    assert(m.rule(xy.0, xy.1) == self.rule(xy.0, xy.1));
                }
            }
        }
        m
    }
}

/// The merge that the pair at `i` allows: `(merged, rank)`, when a rule
/// exists and its rank is below `u32::MAX`.
pub open spec fn candidate(m: Map<(u32, u32), (u32, u32)>, s: Seq<TokenId>, i: int) -> Option<(u32, u32)> {
    if 0 <= i && i + 1 < s.len() {
        match rule_in(m, s[i].0, s[i + 1].0) {
            Some((mg, r)) => if r < u32::MAX {
                Some((mg, r))
            } else {
                None
            },
            None => None,
        }
    } else {
        None
    }
}

/// The rank in a rule, 0 without one.
pub open spec fn rank_of(o: Option<(u32, u32)>) -> u32 {
    match o {
        Some((_, r)) => r,
        None => 0,
    }
}

/// The best merge among the pairs starting before `n`: lowest rank, and
/// the leftmost of those: `(position, merged, rank)`.
pub open spec fn best_upto(m: Map<(u32, u32), (u32, u32)>, s: Seq<TokenId>, n: int) -> Option<(int, u32, u32)>
    decreases n,
{
    if n <= 0 {
        None
    } else {
        let prev = best_upto(m, s, n - 1);
        match candidate(m, s, n - 1) {
            None => prev,
            Some((mg, r)) => match prev {
                None => Some((n - 1, mg, r)),
                Some(p) => if r < p.2 {
                    Some((n - 1, mg, r))
                } else {
                    prev
                },
            },
        }
    }
}

/// The merge applied next to `s`.
pub open spec fn best_pair(m: Map<(u32, u32), (u32, u32)>, s: Seq<TokenId>) -> Option<(int, u32, u32)> {
    best_upto(m, s, s.len() - 1)
}

/// `best_upto` picks the leftmost candidate of lowest rank.
pub proof fn lemma_best_upto(m: Map<(u32, u32), (u32, u32)>, s: Seq<TokenId>, n: int)
    ensures
        best_upto(m, s, n) matches Some((i, mg, r)) ==> {
            &&& 0 <= i < n
            &&& candidate(m, s, i) == Some((mg, r))
            &&& forall|j: int| 0 <= j < n && #[trigger] candidate(m, s, j) is Some ==> rank_of(candidate(m, s, j)) >= r
            &&& forall|j: int| 0 <= j < i && #[trigger] candidate(m, s, j) is Some ==> rank_of(candidate(m, s, j)) > r
        },
        best_upto(m, s, n) is None ==> forall|j: int| 0 <= j < n ==> #[trigger] candidate(m, s, j) is None,
    decreases n,
{
    if n > 0 {
        lemma_best_upto(m, s, n - 1);
    }
}

/// BPE merges the pair of lowest rank, leftmost first: the chosen pair has a
/// rule, no pair has a lower rank, and no pair to its left has the same rank.
pub proof fn law_lowest_rank_leftmost(m: Map<(u32, u32), (u32, u32)>, s: Seq<TokenId>)
    ensures
        best_pair(m, s) matches Some((i, mg, r)) ==> {
            &&& 0 <= i && i + 1 < s.len()
            &&& rule_in(m, s[i].0, s[i + 1].0) == Some((mg, r))
            &&& forall|j: int| 0 <= j && j + 1 < s.len() && #[trigger] rule_in(m, s[j].0, s[j + 1].0) is Some
                && rank_of(rule_in(m, s[j].0, s[j + 1].0)) < u32::MAX ==> rank_of(rule_in(m, s[j].0, s[j + 1].0)) >= r
            &&& forall|j: int| 0 <= j < i && #[trigger] rule_in(m, s[j].0, s[j + 1].0) is Some
                && rank_of(rule_in(m, s[j].0, s[j + 1].0)) < u32::MAX ==> rank_of(rule_in(m, s[j].0, s[j + 1].0)) > r
        },
        best_pair(m, s) is None ==> forall|j: int| 0 <= j && j + 1 < s.len() ==> #[trigger] rule_in(m, s[j].0, s[j + 1].0) is None
            || rank_of(rule_in(m, s[j].0, s[j + 1].0)) == u32::MAX,
{
    lemma_best_upto(m, s, s.len() - 1);
    assert forall|j: int| 0 <= j && j + 1 < s.len() && #[trigger] rule_in(m, s[j].0, s[j + 1].0) is Some
        && rank_of(rule_in(m, s[j].0, s[j + 1].0)) < u32::MAX implies candidate(m, s, j) is Some by {}
}

/// `s` with the pair at `i` replaced by `t`.
pub open spec fn merge_at(s: Seq<TokenId>, i: int, t: TokenId) -> Seq<TokenId> {
    s.subrange(0, i) + seq![t] + s.subrange(i + 2, s.len() as int)
}

/// The result of merging `s` until no rule applies.
pub open spec fn bpe(m: Map<(u32, u32), (u32, u32)>, s: Seq<TokenId>) -> Seq<TokenId>
    decreases s.len(),
{
    if s.len() < 2 {
        s
    } else {
        match best_pair(m, s) {
            None => s,
            Some((i, mg, _)) => {
                proof {
                    lemma_best_upto(m, s, s.len() - 1);
                }
                bpe(m, merge_at(s, i, TokenId(mg)))
            },
        }
    }
}

/// Merges `symbols` in place until no rule applies.
pub fn bpe_merge(symbols: &mut Vec<TokenId>, merges: &Merges)
    ensures
        final(symbols)@ == bpe(merges.rules(), old(symbols)@),
{
    let mut len = symbols.len();
    if len < 2 {
        return;
    }
    proof {
        assert(bpe(merges.rules(), old(symbols)@) == bpe(merges.rules(), symbols@));
    }
    loop
        invariant
            len == symbols@.len(),
            bpe(merges.rules(), symbols@) == bpe(merges.rules(), old(symbols)@),
        ensures
            symbols@ == bpe(merges.rules(), old(symbols)@),
        decreases len,
    {
        let mut best_rank = u32::MAX;
        let mut best_pos: usize = 0;
        let mut best_merged = TokenId(0);
        let mut i: usize = 0;
        let ghost s = symbols@;
        while i + 1 < len
            invariant
                len == s.len(),
                s == symbols@,
                i <= len,
                len >= 1 ==> i + 1 <= len,
                best_upto(merges.rules(), s, i as int) matches Some((p, mg, r)) ==> best_pos == p
                    && best_merged.0 == mg && best_rank == r && r < u32::MAX,
                best_upto(merges.rules(), s, i as int) is None ==> best_rank == u32::MAX,
            decreases len - i,
        {
            if let Some((m, r)) = merges.get(symbols[i], symbols[i + 1]) {
                if r < best_rank {
                    best_rank = r;
                    best_pos = i;
                    best_merged = m;
                }
            }
            i += 1;
        }
        proof {
            if len >= 1 {
                assert(i + 1 == len);
            }
        }
        if best_rank == u32::MAX {
            proof {
                if len >= 2 {
                    assert(best_pair(merges.rules(), s) is None);
                }
                assert(bpe(merges.rules(), s) == s);
            }
            break;
        }
        proof {
            lemma_best_upto(merges.rules(), s, len - 1);
        }
        symbols.set(best_pos, best_merged);
        symbols.remove(best_pos + 1);
        proof {
            assert(symbols@ =~= merge_at(s, best_pos as int, best_merged));
        }
        len -= 1;
    }
}

} // verus!
