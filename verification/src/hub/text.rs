//! Byte-level views of strings, and building strings from pieces of others.
use vstd::prelude::*;
use vstd::utf8::*;
use vstd::string::*;

verus! {

/// The UTF-8 bytes of a string.
pub open spec fn bytes_of(s: Seq<char>) -> Seq<u8> {
    encode_utf8(s)
}

/// Position `i` of valid UTF-8 `b` starts a char or is the end.
pub open spec fn at_boundary(b: Seq<u8>, i: int) -> bool {
    i == b.len() || (0 <= i < b.len() && !is_continuation_byte(b[i]))
}

pub proof fn lemma_encode_utf8_concat(a: Seq<char>, b: Seq<char>)
    ensures
        encode_utf8(a + b) == encode_utf8(a) + encode_utf8(b),
    decreases a.len(),
{
    if a.len() == 0 {
        assert(a + b =~= b);
        assert(encode_utf8(a) =~= Seq::<u8>::empty());
        assert(encode_utf8(a) + encode_utf8(b) =~= encode_utf8(b));
    } else {
        lemma_encode_utf8_concat(a.drop_first(), b);
        assert((a + b).drop_first() =~= a.drop_first() + b);
        assert((a + b)[0] == a[0]);
        assert(encode_utf8(a + b) =~= encode_scalar(a[0] as u32) + encode_utf8(a.drop_first() + b));
    }
}

/// The UTF-8 bytes of ASCII chars are the chars' values.
pub proof fn lemma_ascii_bytes(s: Seq<char>)
    requires
        is_ascii_chars(s),
    ensures
        encode_utf8(s) == Seq::new(s.len(), |i: int| s[i] as u8),
{
    is_ascii_chars_encode_utf8(s);
    assert(encode_utf8(s) =~= Seq::new(s.len(), |i: int| s[i] as u8));
}

pub proof fn lemma_boundary(b: Seq<u8>, i: int)
    requires
        valid_utf8(b),
        at_boundary(b, i),
    ensures
        is_char_boundary(b, i),
{
    if i == b.len() {
        is_char_boundary_start_end_of_seq(b);
    } else {
        is_char_boundary_iff_not_is_continuation_byte(b, i);
    }
}

/// An owned copy of `s`.
pub fn owned(s: &str) -> (r: String)
    ensures
        r@ == s@,
{
    String::from_str(s)
}

/// Appends `s` to `out`.
pub fn push_str(out: &mut String, s: &str)
    ensures
        final(out)@ == old(out)@ + s@,
        bytes_of(final(out)@) == bytes_of(old(out)@) + s.spec_bytes(),
{
    out.append(s);
    proof {
        lemma_encode_utf8_concat(old(out)@, s@);
    }
}

/// Appends the bytes `s[from..to]` to `out`, both positions at char starts.
pub fn push_str_range(out: &mut String, s: &str, from: usize, to: usize)
    requires
        from <= to <= s.spec_bytes().len(),
        at_boundary(s.spec_bytes(), from as int),
        at_boundary(s.spec_bytes(), to as int),
    ensures
        bytes_of(final(out)@) == bytes_of(old(out)@) + s.spec_bytes().subrange(from as int, to as int),
{
    let ghost b = s.spec_bytes();
    proof {
        encode_utf8_valid_utf8(s@);
        lemma_boundary(b, from as int);
    }
    let (_, tail) = s.split_at(from);
    proof {
        let t = tail.spec_bytes();
        encode_utf8_valid_utf8(tail@);
        if to < b.len() {
            assert(t[to - from] == b[to as int]);
        }
        lemma_boundary(t, (to - from) as int);
    }
    let (mid, _) = tail.split_at(to - from);
    proof {
        assert(mid.spec_bytes() =~= b.subrange(from as int, to as int));
    }
    push_str(out, mid);
}

/// Whether the last byte of `s` is `/`.
pub fn ends_with_slash(s: &str) -> (r: bool)
    ensures
        r == (s.spec_bytes().len() > 0 && s.spec_bytes().last() == 0x2f),
{
    let b = s.as_bytes();
    b.len() > 0 && b[b.len() - 1] == 0x2f
}

/// `base` joined with the path `comp`, as `Path::join` does: an absolute
/// `comp` (starting with `/`) replaces `base`; otherwise a `/` goes between
/// them unless `base` is empty or already ends with one.
pub open spec fn path_join(base: Seq<u8>, comp: Seq<u8>) -> Seq<u8> {
    if comp.len() > 0 && comp[0] == 0x2f {
        comp
    } else if base.len() == 0 {
        comp
    } else if base.last() == 0x2f {
        base + comp
    } else {
        base + seq![0x2fu8] + comp
    }
}

/// The two strings joined as paths.
pub fn join(base: &str, comp: &str) -> (r: String)
    ensures
        bytes_of(r@) == path_join(base.spec_bytes(), comp.spec_bytes()),
{
    let ghost b = base.spec_bytes();
    let ghost c = comp.spec_bytes();
    let cb = comp.as_bytes();
    if cb.len() > 0 && cb[0] == 0x2f {
        let r = owned(comp);
        return r;
    }
    let mut r = owned(base);
    assert(bytes_of(r@) == b);
    let nonempty = base.as_bytes().len() > 0;
    let slash = ends_with_slash(base);
    assert(slash == (b.len() > 0 && b.last() == 0x2f));
    assert(nonempty == (b.len() > 0));
    if nonempty && !slash {
        proof {
            reveal_strlit("/");
            assert(is_ascii_chars("/"@));
            lemma_ascii_bytes("/"@);
            assert("/".spec_bytes() =~= seq![0x2fu8]);
        }
        push_str(&mut r, "/");
        push_str(&mut r, comp);
        assert(bytes_of(r@) =~= b + seq![0x2fu8] + c);
        assert(bytes_of(r@) == path_join(b, c));
    } else {
        push_str(&mut r, comp);
        proof {
            if b.len() == 0 {
                assert(bytes_of(r@) =~= c);
            } else {
                assert(b.last() == 0x2f);
                assert(bytes_of(r@) =~= b + c);
            }
            assert(bytes_of(r@) == path_join(b, c));
        }
    }
    r
}

} // verus!
