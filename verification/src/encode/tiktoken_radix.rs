//! Streaming encoder: one open-addressing table of probe slots caches each
//! distinct pretoken's tokens across all lines.
//!
//! A slot holds the pretoken's hash fingerprint (`hash | 1`; 0 marks an
//! empty slot), its packed 8-byte prefix, its length and its tokens (inline
//! when there is one). A probe accepts a slot when fingerprint, length and
//! prefix agree and, past 8 bytes, the stored bytes agree too.
use vstd::prelude::*;
use vstd::utf8::valid_utf8;
use vstd::slice::{slice_subrange, slice_to_vec};
use crate::token::TokenId;
use crate::bpe::bpe_merge;
use crate::bytemap::bytes_eq;
use crate::tiktoken::tokenizer::{Tokenizer, encode_pretoken, encode_pretokens, initial_symbols};
use crate::pretokenize::pattern::pretokens_of;
use crate::pretokenize::pretoken::Pretoken;
use crate::pretokenize::scalar::pretoken_bytes;
use crate::pretokenize::state_machine::pretokenize_as_iter;
use crate::encode::hashing::{fast_hash, pack_prefix8, prefix8_spec, lemma_prefix8_agree};

verus! {

/// The tokens of one line.
pub open spec fn line_tokens(t: Tokenizer, line: Seq<u8>) -> Seq<TokenId> {
    encode_pretokens(t.rules(), t.remap(), pretokens_of(line))
}

/// The tokens of lines, one after the other.
pub open spec fn lines_tokens(t: Tokenizer, lines: Seq<Seq<u8>>) -> Seq<TokenId>
    decreases lines.len(),
{
    if lines.len() == 0 {
        seq![]
    } else {
        lines_tokens(t, lines.drop_last()) + line_tokens(t, lines.last())
    }
}

/// A probe slot.
#[derive(Clone, Copy)]
struct Slot {
    fp: u64,
    prefix8: u64,
    first_tok: TokenId,
    store_at: usize,
    entry_idx: usize,
    pt_len: usize,
    n_tok: usize,
}

impl Slot {
    spec fn occupied(self) -> bool {
        self.fp != 0
    }

    fn empty() -> (r: Slot)
        ensures
            !r.occupied(),
            r == (Slot { fp: 0, prefix8: 0, first_tok: TokenId(0), store_at: 0, entry_idx: 0, pt_len: 0, n_tok: 0 }),
    {
        Slot { fp: 0, prefix8: 0, first_tok: TokenId(0), store_at: 0, entry_idx: 0, pt_len: 0, n_tok: 0 }
    }
}

/// The tokens a slot holds.
spec fn slot_tokens(s: Slot, store: Seq<TokenId>) -> Seq<TokenId> {
    if s.n_tok == 1 {
        seq![s.first_tok]
    } else {
        store.subrange(s.store_at as int, s.store_at + s.n_tok)
    }
}

/// An occupied slot describes its stored pretoken and holds its encoding.
spec fn slot_ok(s: Slot, entries: Seq<Seq<u8>>, store: Seq<TokenId>, t: Tokenizer) -> bool {
    s.occupied() ==> {
        &&& s.entry_idx < entries.len()
        &&& s.pt_len == entries[s.entry_idx as int].len()
        &&& s.prefix8 == prefix8_spec(entries[s.entry_idx as int])
        &&& (s.n_tok != 1 ==> s.store_at + s.n_tok <= store.len())
        &&& slot_tokens(s, store) == t.encoding(entries[s.entry_idx as int])
    }
}

proof fn lemma_and_mask(x: usize, mask: usize)
    ensures
        x & mask <= mask,
{
    assert(x & mask <= mask) by (bit_vector);
}

/// Rehashes the occupied slots into a table twice as large. Every occupied
/// slot of the new table is one of the old ones.
fn grow(slots: &mut Vec<Slot>, mask: &mut usize)
    requires
        1 <= old(slots)@.len() <= usize::MAX / 2,
    ensures
        final(slots)@.len() == 2 * old(slots)@.len(),
        *final(mask) == final(slots)@.len() - 1,
        forall|i: int| 0 <= i < final(slots)@.len() && (#[trigger] final(slots)@[i]).occupied() ==> exists|j: int|
            0 <= j < old(slots)@.len() && old(slots)@[j] == final(slots)@[i],
{
    let new_cap = slots.len() * 2;
    let new_mask = new_cap - 1;
    let mut new_slots: Vec<Slot> = Vec::new();
    let mut k: usize = 0;
    while k < new_cap
        invariant
            k <= new_cap,
            new_slots@.len() == k,
            forall|i: int| 0 <= i < k ==> !(#[trigger] new_slots@[i]).occupied(),
        decreases new_cap - k,
    {
        new_slots.push(Slot::empty());
        k += 1;
    }
    let mut j: usize = 0;
    while j < slots.len()
        invariant
            new_cap == 2 * slots@.len(),
            new_mask == new_cap - 1,
            new_slots@.len() == new_cap,
            j <= slots@.len(),
            slots@ == old(slots)@,
            forall|i: int| 0 <= i < new_cap && (#[trigger] new_slots@[i]).occupied() ==> exists|x: int|
                0 <= x < slots@.len() && slots@[x] == new_slots@[i],
        decreases slots@.len() - j,
    {
        let s = slots[j];
        if s.fp != 0 {
            let h = #[verifier::truncate] (s.fp as usize);
            let mut i = h & new_mask;
            proof {
                lemma_and_mask(h, new_mask);
            }
            let mut probes: usize = 0;
            while new_slots[i].fp != 0 && probes < new_cap
                invariant
                    new_slots@.len() == new_cap,
                    new_mask == new_cap - 1,
                    i < new_cap,
                    probes <= new_cap,
                decreases new_cap - probes,
            {
                let ni = i + 1;
                proof {
                    lemma_and_mask(ni, new_mask);
                }
                i = ni & new_mask;
                probes += 1;
            }
            if new_slots[i].fp == 0 {
                let ghost before = new_slots@;
                new_slots.set(i, s);
                proof {
                    assert forall|x: int| 0 <= x < new_cap && (#[trigger] new_slots@[x]).occupied() implies exists|y: int|
                        0 <= y < slots@.len() && slots@[y] == new_slots@[x] by {
                        if x == i {
                            assert(slots@[j as int] == new_slots@[x]);
                        } else {
                            assert(new_slots@[x] == before[x]);
                        }
                    }
                }
            }
        }
        j += 1;
    }
    *slots = new_slots;
    *mask = new_mask;
}

/// `s` is the slot that stores the pretoken `bytes` with its `tokens`, as
/// entry `ei` and, for other than one token, at `store_at` in the store.
spec fn stored_slot(s: Slot, fp: u64, prefix: u64, bytes: Seq<u8>, tokens: Seq<TokenId>, ei: int, store_at: int) -> bool {
    &&& s.fp == fp
    &&& s.prefix8 == prefix
    &&& s.entry_idx == ei
    &&& s.pt_len == bytes.len()
    &&& s.n_tok == tokens.len()
    &&& tokens.len() == 1 ==> s.first_tok == tokens[0]
    &&& tokens.len() != 1 ==> s.store_at == store_at
}

/// The probe table with the bytes and tokens of its pretokens.
struct SlotTable {
    slots: Vec<Slot>,
    mask: usize,
    entries: Vec<Vec<u8>>,
    tok_store: Vec<TokenId>,
    n_entries: usize,
}

impl SlotTable {
    spec fn entries_view(&self) -> Seq<Seq<u8>> {
        self.entries@.map_values(|e: Vec<u8>| e@)
    }

    spec fn wf(&self, t: Tokenizer) -> bool {
        &&& 1 <= self.slots@.len()
        &&& self.mask == self.slots@.len() - 1
        &&& forall|i: int| 0 <= i < self.slots@.len() ==> slot_ok(#[trigger] self.slots@[i], self.entries_view(), self.tok_store@, t)
    }

    fn new(cap: usize, Ghost(t): Ghost<Tokenizer>) -> (r: SlotTable)
        requires
            cap >= 1,
        ensures
            r.wf(t),
    {
        let mut slots: Vec<Slot> = Vec::new();
        let mut k: usize = 0;
        while k < cap
            invariant
                k <= cap,
                slots@.len() == k,
                forall|i: int| 0 <= i < k ==> !(#[trigger] slots@[i]).occupied(),
            decreases cap - k,
        {
            slots.push(Slot::empty());
            k += 1;
        }
        SlotTable { slots, mask: cap - 1, entries: Vec::new(), tok_store: Vec::new(), n_entries: 0 }
    }

    /// Appends the tokens of an occupied slot to `out`.
    fn emit(&self, s: Slot, out: &mut Vec<TokenId>, Ghost(t): Ghost<Tokenizer>)
        requires
            s.occupied(),
            slot_ok(s, self.entries_view(), self.tok_store@, t),
        ensures
            final(out)@ == old(out)@ + slot_tokens(s, self.tok_store@),
    {
        if s.n_tok == 1 {
            out.push(s.first_tok);
        } else {
            let n = self.tok_store.len();
            let end = s.store_at + s.n_tok;
            let mut k = s.store_at;
            let ghost base = out@;
            while k < end
                invariant
                    s.store_at <= k <= end <= self.tok_store@.len(),
                    out@ == base + self.tok_store@.subrange(s.store_at as int, k as int),
                decreases end - k,
            {
                out.push(self.tok_store[k]);
                proof {
                    assert(self.tok_store@.subrange(s.store_at as int, k + 1) =~= self.tok_store@.subrange(
                        s.store_at as int,
                        k as int,
                    ).push(self.tok_store@[k as int]));
                }
                k += 1;
            }
        }
    }

    /// Appends the tokens of `bytes` (two or more bytes) to `out`: from a
    /// matching slot, or by merging, storing the result in the first empty
    /// slot of the probe sequence.
    fn encode_cached(&mut self, bytes: &[u8], t: &Tokenizer, b2t: &Vec<TokenId>, out: &mut Vec<TokenId>)
        requires
            old(self).wf(*t),
            t.wf(),
            b2t@.len() == 256,
            forall|b: u8| #[trigger] initial_symbols(t.remap(), seq![b]) == seq![b2t@[b as int]],
            bytes@.len() >= 2,
        ensures
            final(self).wf(*t),
            final(out)@ == old(out)@ + t.encoding(bytes@),
    {
        let fp = fast_hash(bytes) | 1u64;
        assert(fp != 0) by {
            let h = fast_hash_spec_value(bytes);
            assert(h | 1u64 != 0) by (bit_vector);
        }
        let blen = bytes.len();
        let prefix = pack_prefix8(bytes);
        let cap = self.slots.len();
        let h = #[verifier::truncate] (fp as usize);
        let mut si = h & self.mask;
        proof {
            lemma_and_mask(h, self.mask);
        }
        let mut probes: usize = 0;
        let mut empty_at: Option<usize> = None;
        while probes < cap
            invariant_except_break
                empty_at is None,
            invariant
                self.wf(*t),
                self == old(self),
                out@ == old(out)@,
                cap == self.slots@.len(),
                si < cap,
                probes <= cap,
                fp != 0,
                prefix == prefix8_spec(bytes@),
                blen == bytes@.len(),
                blen >= 2,
            ensures
                self == old(self),
                out@ == old(out)@,
                empty_at matches Some(e) ==> e < cap && !self.slots@[e as int].occupied(),
            decreases cap - probes,
        {
            let slot = self.slots[si];
            if slot.fp == 0 {
                empty_at = Some(si);
                break;
            }
            if slot.fp == fp && slot.pt_len == blen && slot.prefix8 == prefix {
                assert(slot_ok(self.slots@[si as int], self.entries_view(), self.tok_store@, *t));
                let stored = self.entries[slot.entry_idx].as_slice();
                let ghost k = stored@;
                proof {
                    lemma_prefix8_agree(k, bytes@);
                }
                let verified = blen <= 8 || bytes_eq(
                    slice_subrange(stored, 8, blen),
                    slice_subrange(bytes, 8, blen),
                );
                if verified {
                    proof {
                        if blen > 8 {
                            assert forall|x: int| 0 <= x < blen implies k[x] == bytes@[x] by {
                                if x >= 8 {
                                    assert(k.subrange(8, blen as int)[x - 8] == bytes@.subrange(8, blen as int)[x - 8]);
                                }
                            }
                        }
                        assert(k =~= bytes@);
                    }
                    self.emit(slot, out, Ghost(*t));
                    return;
                }
            }
            let ni = si + 1;
            proof {
                lemma_and_mask(ni, self.mask);
            }
            si = ni & self.mask;
            probes += 1;
        }
        let mut scratch: Vec<TokenId> = Vec::new();
        let mut k: usize = 0;
        while k < blen
            invariant
                blen == bytes@.len(),
                b2t@.len() == 256,
                forall|b: u8| #[trigger] initial_symbols(t.remap(), seq![b]) == seq![b2t@[b as int]],
                k <= blen,
                scratch@ == initial_symbols(t.remap(), bytes@.subrange(0, k as int)),
            decreases blen - k,
        {
            let b = bytes[k];
            scratch.push(b2t[b as usize]);
            proof {
                assert(initial_symbols(t.remap(), seq![b])[0] == b2t@[b as int]);
                assert(scratch@ =~= initial_symbols(t.remap(), bytes@.subrange(0, k + 1)));
            }
            k += 1;
        }
        proof {
            assert(bytes@.subrange(0, blen as int) =~= bytes@);
        }
        bpe_merge(&mut scratch, t.merges());
        let nt = scratch.len();
        let mut idx: usize = 0;
        let ghost base = out@;
        while idx < nt
            invariant
                nt == scratch@.len(),
                idx <= nt,
                out@ == base + scratch@.subrange(0, idx as int),
            decreases nt - idx,
        {
            out.push(scratch[idx]);
            proof {
                assert(scratch@.subrange(0, idx + 1) =~= scratch@.subrange(0, idx as int).push(scratch@[idx as int]));
            }
            idx += 1;
        }
        proof {
            assert(scratch@.subrange(0, nt as int) =~= scratch@);
        }
        if let Some(e) = empty_at {
            self.store(e, fp, prefix, bytes, &scratch, t);
        }
    }

    /// Fills the empty slot `e` with `bytes` and their tokens, growing the
    /// table past half full.
    fn store(&mut self, e: usize, fp: u64, prefix: u64, bytes: &[u8], tokens: &Vec<TokenId>, t: &Tokenizer)
        requires
            old(self).wf(*t),
            e < old(self).slots@.len(),
            !old(self).slots@[e as int].occupied(),
            fp != 0,
            prefix == prefix8_spec(bytes@),
            tokens@ == t.encoding(bytes@),
        ensures
            final(self).wf(*t),
            final(self).entries_view() == old(self).entries_view().push(bytes@),
            final(self).tok_store@ == (if tokens@.len() == 1 {
                old(self).tok_store@
            } else {
                old(self).tok_store@ + tokens@
            }),
            final(self).n_entries == (if old(self).n_entries < usize::MAX {
                old(self).n_entries + 1
            } else {
                old(self).n_entries as int
            }),
            ({
                let grew = final(self).n_entries > old(self).slots@.len() / 2 && old(self).slots@.len() <= usize::MAX
                    / 2;
                &&& grew ==> final(self).slots@.len() == 2 * old(self).slots@.len() && forall|i: int|
                    0 <= i < final(self).slots@.len() && (#[trigger] final(self).slots@[i]).occupied() ==> stored_slot(
                        final(self).slots@[i],
                        fp,
                        prefix,
                        bytes@,
                        tokens@,
                        old(self).entries@.len() as int,
                        old(self).tok_store@.len() as int,
                    ) || exists|j: int| 0 <= j < old(self).slots@.len() && j != e && old(self).slots@[j] == final(self).slots@[i]
                &&& !grew ==> final(self).slots@.len() == old(self).slots@.len() && stored_slot(
                    final(self).slots@[e as int],
                    fp,
                    prefix,
                    bytes@,
                    tokens@,
                    old(self).entries@.len() as int,
                    old(self).tok_store@.len() as int,
                ) && forall|i: int| 0 <= i < old(self).slots@.len() && i != e ==> #[trigger] final(self).slots@[i] == old(self).slots@[i]
            }),
    {
        let ei = self.entries.len();
        let ghost entries0 = self.entries_view();
        let ghost store0 = self.tok_store@;
        self.entries.push(slice_to_vec(bytes));
        let ghost ep = self.entries@;
        let nt = tokens.len();
        let new_slot = if nt == 1 {
            Slot { fp, prefix8: prefix, first_tok: tokens[0], store_at: 0, entry_idx: ei, pt_len: bytes.len(), n_tok: 1 }
        } else {
            let ts = self.tok_store.len();
            let mut k: usize = 0;
            while k < nt
                invariant
                    nt == tokens@.len(),
                    k <= nt,
                    self.tok_store@ == store0 + tokens@.subrange(0, k as int),
                    ts == store0.len(),
                    self.entries@ == ep,
                    self.slots@ == old(self).slots@,
                    self.mask == old(self).mask,
                    self.n_entries == old(self).n_entries,
                decreases nt - k,
            {
                self.tok_store.push(tokens[k]);
                proof {
                    assert(tokens@.subrange(0, k + 1) =~= tokens@.subrange(0, k as int).push(tokens@[k as int]));
                }
                k += 1;
            }
            proof {
                assert(tokens@.subrange(0, nt as int) =~= tokens@);
                assert(self.tok_store@.subrange(ts as int, ts + nt) =~= tokens@);
            }
            Slot { fp, prefix8: prefix, first_tok: TokenId(0), store_at: ts, entry_idx: ei, pt_len: bytes.len(), n_tok: nt }
        };
        let ghost ev = self.entries_view();
        proof {
            assert(ev =~= entries0.push(bytes@));
            if nt == 1 {
                assert(slot_tokens(new_slot, self.tok_store@) =~= tokens@);
            }
        }
        let ghost slots0 = self.slots@;
        self.slots.set(e, new_slot);
        proof {
            assert forall|i: int| 0 <= i < self.slots@.len() implies slot_ok(#[trigger] self.slots@[i], self.entries_view(), self.tok_store@, *t) by {
                if i != e {
                    let s = slots0[i];
                    assert(slot_ok(s, entries0, store0, *t));
                    if s.occupied() {
                        assert(ev[s.entry_idx as int] == entries0[s.entry_idx as int]);
                        if s.n_tok != 1 {
                            assert(self.tok_store@.subrange(s.store_at as int, s.store_at + s.n_tok) =~= store0.subrange(
                                s.store_at as int,
                                s.store_at + s.n_tok,
                            ));
                        }
                    }
                }
            }
        }
        self.n_entries = if self.n_entries < usize::MAX { self.n_entries + 1 } else { self.n_entries };
        if self.n_entries > self.slots.len() / 2 && self.slots.len() <= usize::MAX / 2 {
            let ghost slots1 = self.slots@;
            grow(&mut self.slots, &mut self.mask);
            proof {
                assert forall|i: int| 0 <= i < self.slots@.len() implies slot_ok(#[trigger] self.slots@[i], self.entries_view(), self.tok_store@, *t) by {
                    if self.slots@[i].occupied() {
                        let j = choose|j: int| 0 <= j < slots1.len() && slots1[j] == self.slots@[i];
                        assert(slot_ok(slots1[j], self.entries_view(), self.tok_store@, *t));
                    }
                }
            }
        }
    }
}

spec fn fast_hash_spec_value(bytes: &[u8]) -> u64 {
    crate::encode::hashing::fast_hash_spec(bytes@)
}

/// Encodes every line, returning the tokens of all lines one after the
/// other and the line boundaries: `boundaries[i]` is where line `i`'s tokens
/// start, the last entry the total.
pub fn encode_lines(lines: &[&[u8]], tokenizer: &Tokenizer) -> (r: (Vec<TokenId>, Vec<usize>))
    requires
        tokenizer.wf(),
        forall|i: int| 0 <= i < lines@.len() ==> valid_utf8(#[trigger] lines@[i]@),
    ensures
        r.0@ == lines_tokens(*tokenizer, lines@.map_values(|l: &[u8]| l@)),
        r.1@.len() == lines@.len() + 1,
        forall|i: int| 0 <= i <= lines@.len() ==> #[trigger] r.1@[i] == lines_tokens(
            *tokenizer,
            lines@.map_values(|l: &[u8]| l@).take(i),
        ).len(),
{
    let ghost lv = lines@.map_values(|l: &[u8]| l@);
    let b2t = tokenizer.byte_tokens();
    let mut total_bytes: usize = 0;
    let mut k: usize = 0;
    while k < lines.len()
        invariant
            k <= lines@.len(),
        decreases lines@.len() - k,
    {
        total_bytes = total_bytes.saturating_add(lines[k].len());
        k += 1;
    }
    let est_unique = if total_bytes / 300 > 4096 {
        total_bytes / 300
    } else {
        4096
    };
    let target = if est_unique <= usize::MAX / 2 {
        est_unique * 2
    } else {
        usize::MAX
    };
    let mut cap: usize = 4096;
    while cap < target && cap <= usize::MAX / 2
        invariant
            cap >= 4096,
        decreases usize::MAX - cap,
    {
        cap = cap * 2;
    }
    let mut table = SlotTable::new(cap, Ghost(*tokenizer));
    let mut output: Vec<TokenId> = Vec::new();
    let mut boundaries: Vec<usize> = Vec::new();
    boundaries.push(0);
    let mut li: usize = 0;
    proof {
        assert(lv.take(0) =~= Seq::<Seq<u8>>::empty());
    }
    while li < lines.len()
        invariant
            tokenizer.wf(),
            table.wf(*tokenizer),
            b2t@.len() == 256,
            forall|b: u8| #[trigger] initial_symbols(tokenizer.remap(), seq![b]) == seq![b2t@[b as int]],
            forall|i: int| 0 <= i < lines@.len() ==> valid_utf8(#[trigger] lines@[i]@),
            lv == lines@.map_values(|l: &[u8]| l@),
            li <= lines@.len(),
            output@ == lines_tokens(*tokenizer, lv.take(li as int)),
            boundaries@.len() == li + 1,
            forall|i: int| 0 <= i <= li ==> #[trigger] boundaries@[i] == lines_tokens(*tokenizer, lv.take(i)).len(),
        decreases lines@.len() - li,
    {
        let line = lines[li];
        let mut it = pretokenize_as_iter(line);
        let mut ps: Vec<Pretoken> = Vec::new();
        it.collect_into(&mut ps);
        let ghost pv = pretokens_of(line@);
        proof {
            assert(pretoken_bytes(Seq::<Pretoken>::empty()) =~= Seq::<Seq<u8>>::empty());
            assert(pretoken_bytes(ps@) =~= pv);
        }
        let ghost out0 = output@;
        let mut pi: usize = 0;
        while pi < ps.len()
            invariant
                tokenizer.wf(),
                table.wf(*tokenizer),
                b2t@.len() == 256,
                forall|b: u8| #[trigger] initial_symbols(tokenizer.remap(), seq![b]) == seq![b2t@[b as int]],
                pretoken_bytes(ps@) == pv,
                pi <= ps@.len(),
                output@ == out0 + encode_pretokens(tokenizer.rules(), tokenizer.remap(), pv.take(pi as int)),
            decreases ps@.len() - pi,
        {
            let bytes = ps[pi].0;
            let ghost before = output@;
            if bytes.len() == 1 {
                output.push(b2t[bytes[0] as usize]);
                proof {
                    assert(bytes@ =~= seq![bytes@[0]]);
                    assert(initial_symbols(tokenizer.remap(), seq![bytes@[0]]) == seq![b2t@[bytes@[0] as int]]);
                    assert(tokenizer.encoding(bytes@) =~= seq![b2t@[bytes@[0] as int]]);
                }
            } else if bytes.len() == 0 {
                proof {
                    assert(initial_symbols(tokenizer.remap(), bytes@) =~= Seq::<TokenId>::empty());
                    assert(tokenizer.encoding(bytes@) =~= Seq::<TokenId>::empty());
                }
            } else {
                table.encode_cached(bytes, tokenizer, &b2t, &mut output);
            }
            proof {
                let pre = pv.take(pi + 1);
                assert(pre.drop_last() =~= pv.take(pi as int));
                assert(pre.last() == bytes@);
                assert(output@ =~= out0 + encode_pretokens(tokenizer.rules(), tokenizer.remap(), pre));
            }
            pi += 1;
        }
        proof {
            assert(pv.take(ps@.len() as int) =~= pv);
            let pre = lv.take(li + 1);
            assert(pre.drop_last() =~= lv.take(li as int));
            assert(pre.last() == line@);
        }
        boundaries.push(output.len());
        li += 1;
    }
    proof {
        assert(lv.take(lines@.len() as int) =~= lv);
    }
    (output, boundaries)
}

} // verus!
