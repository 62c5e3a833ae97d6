//! Decoding gives back what was encoded.
use vstd::prelude::*;
use crate::token::TokenId;
use crate::bpe::{bpe, best_pair, merge_at, lemma_best_upto};
use crate::tiktoken::tokenizer::{
    decode_ids, encode_pretoken, encode_pretokens, initial_symbols, inverse_vocab, ranks_rules, rank_symbols,
    remap_of, first_unmapped_byte,
};
use crate::pretokenize::pattern::{pretokens_of, lemma_pieces_concat};
use crate::unicode::valid_from;

verus! {

/// Every rule merges into a token whose bytes are those of its two sides.
pub open spec fn merges_concatenate(vocab: Seq<Seq<u8>>, rules: Map<(u32, u32), (u32, u32)>) -> bool {
    forall|a: u32, b: u32|
        #[trigger] rules.contains_key((a, b)) ==> vocab[rules[(a, b)].0 as int] == vocab[a as int] + vocab[b as int]
}

/// Every byte starts as a token whose bytes are that one byte.
pub open spec fn bytes_decode(vocab: Seq<Seq<u8>>, remap: Option<Seq<TokenId>>) -> bool {
    forall|b: u8| #[trigger] vocab[initial_symbols(remap, seq![b])[0].0 as int] == seq![b]
}

/// Decoding distributes over concatenation.
pub proof fn lemma_decode_concat(vocab: Seq<Seq<u8>>, s1: Seq<TokenId>, s2: Seq<TokenId>)
    ensures
        decode_ids(vocab, s1 + s2) == decode_ids(vocab, s1) + decode_ids(vocab, s2),
    decreases s2.len(),
{
    if s2.len() == 0 {
        assert(s1 + s2 =~= s1);
        assert(decode_ids(vocab, s1) + decode_ids(vocab, s2) =~= decode_ids(vocab, s1));
    } else {
        lemma_decode_concat(vocab, s1, s2.drop_last());
        assert((s1 + s2).drop_last() =~= s1 + s2.drop_last());
        assert((s1 + s2).last() == s2.last());
        let l = vocab[s2.last().0 as int];
        assert(decode_ids(vocab, s1) + decode_ids(vocab, s2.drop_last()) + l =~= decode_ids(vocab, s1) + (
        decode_ids(vocab, s2.drop_last()) + l));
    }
}

proof fn lemma_decode_one(vocab: Seq<Seq<u8>>, t: TokenId)
    ensures
        decode_ids(vocab, seq![t]) == vocab[t.0 as int],
{
    assert(seq![t].drop_last() =~= Seq::<TokenId>::empty());
    assert(decode_ids(vocab, Seq::<TokenId>::empty()) + vocab[t.0 as int] =~= vocab[t.0 as int]);
}

/// Replacing a pair by a token of the same bytes leaves the decoding as it is.
proof fn lemma_decode_merge(vocab: Seq<Seq<u8>>, s: Seq<TokenId>, i: int, t: TokenId)
    requires
        0 <= i,
        i + 1 < s.len(),
        vocab[t.0 as int] == vocab[s[i].0 as int] + vocab[s[i + 1].0 as int],
    ensures
        decode_ids(vocab, merge_at(s, i, t)) == decode_ids(vocab, s),
{
    let pre = s.subrange(0, i);
    let post = s.subrange(i + 2, s.len() as int);
    let pair = seq![s[i], s[i + 1]];
    assert(s =~= pre + pair + post);
    assert(seq![s[i]] + seq![s[i + 1]] =~= pair);
    lemma_decode_concat(vocab, pre + pair, post);
    lemma_decode_concat(vocab, pre, pair);
    lemma_decode_concat(vocab, pre + seq![t], post);
    lemma_decode_concat(vocab, pre, seq![t]);
    lemma_decode_concat(vocab, seq![s[i]], seq![s[i + 1]]);
    lemma_decode_one(vocab, s[i]);
    lemma_decode_one(vocab, s[i + 1]);
    lemma_decode_one(vocab, t);
    assert(decode_ids(vocab, pre) + (vocab[s[i].0 as int] + vocab[s[i + 1].0 as int]) =~= decode_ids(vocab, pre)
        + vocab[t.0 as int]);
}

/// Merging keeps the bytes when every rule concatenates.
pub proof fn lemma_decode_bpe(vocab: Seq<Seq<u8>>, rules: Map<(u32, u32), (u32, u32)>, s: Seq<TokenId>)
    requires
        merges_concatenate(vocab, rules),
    ensures
        decode_ids(vocab, bpe(rules, s)) == decode_ids(vocab, s),
    decreases s.len(),
{
    if s.len() >= 2 {
        match best_pair(rules, s) {
            None => {},
            Some((i, mg, _)) => {
                lemma_best_upto(rules, s, s.len() - 1);
                assert(rules.contains_key((s[i].0, s[i + 1].0)));
                lemma_decode_merge(vocab, s, i, TokenId(mg));
                lemma_decode_bpe(vocab, rules, merge_at(s, i, TokenId(mg)));
            },
        }
    }
}

/// The initial symbols of a pretoken decode to it.
pub proof fn lemma_decode_initial(vocab: Seq<Seq<u8>>, remap: Option<Seq<TokenId>>, p: Seq<u8>)
    requires
        bytes_decode(vocab, remap),
    ensures
        decode_ids(vocab, initial_symbols(remap, p)) == p,
    decreases p.len(),
{
    let s = initial_symbols(remap, p);
    if p.len() == 0 {
        assert(s =~= Seq::<TokenId>::empty());
        assert(p =~= Seq::<u8>::empty());
    } else {
        let b = p.last();
        lemma_decode_initial(vocab, remap, p.drop_last());
        assert(s.drop_last() =~= initial_symbols(remap, p.drop_last()));
        assert(s.last() == initial_symbols(remap, seq![b])[0]);
        assert(vocab[s.last().0 as int] == seq![b]);
        assert(p =~= p.drop_last() + seq![b]);
    }
}

/// The encodings of pretokens decode to the pretokens joined.
pub proof fn lemma_decode_encode_pretokens(
    vocab: Seq<Seq<u8>>,
    rules: Map<(u32, u32), (u32, u32)>,
    remap: Option<Seq<TokenId>>,
    ps: Seq<Seq<u8>>,
)
    requires
        merges_concatenate(vocab, rules),
        bytes_decode(vocab, remap),
    ensures
        decode_ids(vocab, encode_pretokens(rules, remap, ps)) == ps.flatten_alt(),
    decreases ps.len(),
{
    if ps.len() > 0 {
        lemma_decode_encode_pretokens(vocab, rules, remap, ps.drop_last());
        lemma_decode_concat(vocab, encode_pretokens(rules, remap, ps.drop_last()), encode_pretoken(rules, remap, ps.last()));
        lemma_decode_bpe(vocab, rules, initial_symbols(remap, ps.last()));
        lemma_decode_initial(vocab, remap, ps.last());
    }
}

/// Decoding the encoding of a UTF-8 text gives the text back, when every
/// merge rule joins the bytes of its two sides and every byte starts as a
/// token of just that byte.
pub proof fn law_decode_inverts_encode(
    vocab: Seq<Seq<u8>>,
    rules: Map<(u32, u32), (u32, u32)>,
    remap: Option<Seq<TokenId>>,
    text: Seq<u8>,
)
    requires
        merges_concatenate(vocab, rules),
        bytes_decode(vocab, remap),
        valid_from(text, 0),
    ensures
        decode_ids(vocab, encode_pretokens(rules, remap, pretokens_of(text))) == text,
{
    lemma_decode_encode_pretokens(vocab, rules, remap, pretokens_of(text));
    lemma_pieces_concat(text, 0);
    pretokens_of(text).lemma_flatten_and_flatten_alt_are_equivalent();
    assert(text.subrange(0, text.len() as int) =~= text);
}

/// The id `inverse_vocab` gives a key is an index holding it.
pub proof fn lemma_inverse_vocab(v: Seq<Seq<u8>>, k: Seq<u8>)
    requires
        v.len() <= u32::MAX,
        inverse_vocab(v).contains_key(k),
    ensures
        0 <= inverse_vocab(v)[k].0 < v.len(),
        v[inverse_vocab(v)[k].0 as int] == k,
    decreases v.len(),
{
    if v.last() != k {
        lemma_inverse_vocab(v.drop_last(), k);
    }
}

proof fn lemma_unmapped_none(inv: Map<Seq<u8>, TokenId>, i: int)
    requires
        0 <= i,
        first_unmapped_byte(inv, i) is None,
    ensures
        forall|b: int| i <= b < 256 ==> #[trigger] inv.contains_key(seq![b as u8]),
    decreases 256 - i,
{
    if i < 256 {
        lemma_unmapped_none(inv, i + 1);
    }
}

/// Symbols each of which decodes to one byte of `t` decode to `t`.
proof fn lemma_decode_bytewise(vocab: Seq<Seq<u8>>, s: Seq<TokenId>, t: Seq<u8>)
    requires
        s.len() == t.len(),
        forall|j: int| 0 <= j < s.len() ==> vocab[(#[trigger] s[j]).0 as int] == seq![t[j]],
    ensures
        decode_ids(vocab, s) == t,
    decreases s.len(),
{
    if s.len() == 0 {
        assert(t =~= Seq::<u8>::empty());
    } else {
        lemma_decode_bytewise(vocab, s.drop_last(), t.drop_last());
        assert(vocab[s[s.len() - 1].0 as int] == seq![t[t.len() - 1]]);
        assert(t =~= t.drop_last() + seq![t.last()]);
    }
}

/// The rules recovered from a vocabulary in rank order concatenate, when
/// every byte has a token among the first 256.
proof fn lemma_ranks_concatenate(v: Seq<Seq<u8>>, n: int)
    requires
        0 <= n <= v.len(),
        v.len() <= u32::MAX,
        forall|b: u8| #[trigger] inverse_vocab(v).contains_key(seq![b]) && inverse_vocab(v)[seq![b]].0 < 256,
    ensures
        ranks_rules(v, n) matches Ok(r) ==> merges_concatenate(v, r),
    decreases n,
{
    if n > 0 {
        lemma_ranks_concatenate(v, n - 1);
        if let Ok(r) = ranks_rules(v, n - 1) {
            let t = v[n - 1];
            let inv = inverse_vocab(v);
            if t.len() >= 2 {
                let rs = rank_symbols(inv, t);
                assert forall|j: int| 0 <= j < rs.len() implies v[(#[trigger] rs[j]).0 as int] == seq![t[j]] by {
                    assert(inv.contains_key(seq![t[j]]) && inv[seq![t[j]]].0 < 256);
                    lemma_inverse_vocab(v, seq![t[j]]);
                    assert((inv[seq![t[j]]].0 as u8) as u32 == inv[seq![t[j]]].0);
                }
                lemma_decode_bytewise(v, rs, t);
                let tk = bpe(r, rs);
                lemma_decode_bpe(v, r, rs);
                if tk.len() == 2 {
                    assert(tk =~= seq![tk[0]] + seq![tk[1]]);
                    lemma_decode_concat(v, seq![tk[0]], seq![tk[1]]);
                    lemma_decode_one(v, tk[0]);
                    lemma_decode_one(v, tk[1]);
                    let r2 = r.insert((tk[0].0, tk[1].0), ((n - 1) as u32, (n - 1) as u32));
                    assert forall|a: u32, b: u32| #[trigger] r2.contains_key((a, b)) implies v[r2[(a, b)].0 as int]
                        == v[a as int] + v[b as int] by {
                        if (a, b) != (tk[0].0, tk[1].0) {
                            assert(r.contains_key((a, b)));
                        }
                    }
                }
            }
        }
    }
}

/// A vocabulary in rank order that loads decodes what it encodes, when
/// every byte's token is among the first 256 ids: each recovered rule
/// merges into the token whose bytes join those of its two sides.
pub proof fn law_ranks_decode_inverts_encode(
    v: Seq<Seq<u8>>,
    rules: Map<(u32, u32), (u32, u32)>,
    remap: Option<Seq<TokenId>>,
    text: Seq<u8>,
)
    requires
        v.len() <= u32::MAX,
        ranks_rules(v, v.len() as int) == Ok::<_, crate::tiktoken::tokenizer::TokenizerError>(rules),
        remap_of(inverse_vocab(v)) == Ok::<_, crate::tiktoken::tokenizer::TokenizerError>(remap),
        forall|b: u8| #[trigger] inverse_vocab(v)[seq![b]].0 < 256,
        valid_from(text, 0),
    ensures
        decode_ids(v, encode_pretokens(rules, remap, pretokens_of(text))) == text,
{
    let inv = inverse_vocab(v);
    lemma_unmapped_none(inv, 0);
    assert forall|b: u8| #[trigger] inv.contains_key(seq![b]) && inv[seq![b]].0 < 256 by {
        assert(inv.contains_key(seq![b as int as u8]));
    }
    lemma_ranks_concatenate(v, v.len() as int);
    assert forall|b: u8| #[trigger] v[initial_symbols(remap, seq![b])[0].0 as int] == seq![b] by {
        assert(inv.contains_key(seq![b]));
        lemma_inverse_vocab(v, seq![b]);
        match remap {
            Some(m) => {
                assert(m[b as int] == inv[seq![(b as int) as u8]]);
            },
            None => {
                assert(inv[seq![(b as int) as u8]] == TokenId((b as int) as u32));
            },
        }
    }
    law_decode_inverts_encode(v, rules, remap, text);
}

} // verus!
