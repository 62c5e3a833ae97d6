//! The pretokenization schemes a tokenizer can use.
use vstd::prelude::*;
use vstd::utf8::*;
use crate::unicode::valid_from;
use crate::pretokenize::pattern::{regex_end, pretokens_of};
use crate::pretokenize::cl100k::{cl_end, cl100k_pretokens, qwen2_pretokens, Cl100kPretokenizer};
use crate::pretokenize::pretoken::Pretoken;
use crate::pretokenize::state_machine::PretokenizerIter;

verus! {

/// Which pretokenization scheme (pattern) a tokenizer uses.
#[derive(Debug, Clone, Copy, PartialEq, Eq, Structural)]
pub enum PretokenizerType {
    /// GPT-2 (r50k), also used by Llama.
    GPT2,
    /// GPT-4 (cl100k).
    GPT4,
    /// Qwen2, adapted from GPT-4, also used by Qwen3.
    Qwen2,
    /// DeepSeek-V3 (o200k), also used by GPT-4o.
    DeepSeekV3,
}

/// Whether this library has a pretokenizer for the scheme `t` (all but
/// DeepSeek-V3).
pub open spec fn has_pretokenizer(t: PretokenizerType) -> bool {
    t != PretokenizerType::DeepSeekV3
}

/// Where the match of scheme `t` at byte `s` ends.
pub open spec fn scheme_end(t: PretokenizerType, b: Seq<u8>, s: int) -> int {
    match t {
        PretokenizerType::GPT2 => regex_end(b, s),
        PretokenizerType::GPT4 => cl_end(b, s, 3),
        PretokenizerType::Qwen2 => cl_end(b, s, 1),
        PretokenizerType::DeepSeekV3 => b.len() as int,
    }
}

/// The pieces scheme `t` cuts a whole document into.
pub open spec fn scheme_pretokens(t: PretokenizerType, b: Seq<u8>) -> Seq<Seq<u8>> {
    match t {
        PretokenizerType::GPT2 => pretokens_of(b),
        PretokenizerType::GPT4 => cl100k_pretokens(b),
        PretokenizerType::Qwen2 => qwen2_pretokens(b),
        // No pretokenizer: the encoders require `has_pretokenizer`.
        PretokenizerType::DeepSeekV3 => seq![],
    }
}

/// A pretokenizer selected at run time.
pub enum FastPretokenizerDispatch<'a> {
    R50k(PretokenizerIter<'a>),
    Cl100k(Cl100kPretokenizer<'a>),
    Qwen2(Cl100kPretokenizer<'a>),
}

impl<'a> FastPretokenizerDispatch<'a> {
    /// The scheme this pretokenizer follows.
    pub closed spec fn scheme(&self) -> PretokenizerType {
        match self {
            FastPretokenizerDispatch::R50k(_) => PretokenizerType::GPT2,
            FastPretokenizerDispatch::Cl100k(_) => PretokenizerType::GPT4,
            FastPretokenizerDispatch::Qwen2(_) => PretokenizerType::Qwen2,
        }
    }

    /// The document.
    pub closed spec fn bytes_view(&self) -> Seq<u8> {
        match self {
            FastPretokenizerDispatch::R50k(it) => it.bytes_view(),
            FastPretokenizerDispatch::Cl100k(it) => it.bytes_view(),
            FastPretokenizerDispatch::Qwen2(it) => it.bytes_view(),
        }
    }

    /// Where the next pretoken starts.
    pub closed spec fn start_view(&self) -> int {
        match self {
            FastPretokenizerDispatch::R50k(it) => it.start_view(),
            FastPretokenizerDispatch::Cl100k(it) => it.start_view(),
            FastPretokenizerDispatch::Qwen2(it) => it.start_view(),
        }
    }

    pub closed spec fn wf(&self) -> bool {
        match self {
            FastPretokenizerDispatch::R50k(it) => it.wf(),
            FastPretokenizerDispatch::Cl100k(it) => it.wf() && it.digits_view() == 3,
            FastPretokenizerDispatch::Qwen2(it) => it.wf() && it.digits_view() == 1,
        }
    }

    /// The next pretoken of the selected scheme.
    pub fn next(&mut self) -> (r: Option<Pretoken<'a>>)
        requires
            old(self).wf(),
        ensures
            final(self).wf(),
            final(self).scheme() == old(self).scheme(),
            final(self).bytes_view() == old(self).bytes_view(),
            old(self).start_view() < old(self).bytes_view().len() ==> ({
                let b = old(self).bytes_view();
                let s = old(self).start_view();
                let e = scheme_end(old(self).scheme(), b, s);
                &&& r matches Some(t) && t.0@ == b.subrange(s, e)
                &&& final(self).start_view() == e
            }),
            old(self).start_view() >= old(self).bytes_view().len() ==> r is None,
    {
        match self {
            FastPretokenizerDispatch::R50k(it) => it.next(),
            FastPretokenizerDispatch::Cl100k(it) => it.next(),
            FastPretokenizerDispatch::Qwen2(it) => it.next(),
        }
    }
}

impl PretokenizerType {
    /// The pretokenizer of this scheme over `bytes`. DeepSeek-V3 has none.
    pub fn pretokenize<'a>(&self, bytes: &'a [u8]) -> (r: FastPretokenizerDispatch<'a>)
        requires
            valid_utf8(bytes@),
            has_pretokenizer(*self),
        ensures
            r.wf(),
            r.scheme() == *self,
            r.bytes_view() == bytes@,
            r.start_view() == 0,
    {
        match self {
            PretokenizerType::GPT2 => FastPretokenizerDispatch::R50k(PretokenizerIter::new(bytes)),
            PretokenizerType::GPT4 => FastPretokenizerDispatch::Cl100k(Cl100kPretokenizer::cl100k(bytes)),
            _ => FastPretokenizerDispatch::Qwen2(Cl100kPretokenizer::qwen2(bytes)),
        }
    }
}

} // verus!
