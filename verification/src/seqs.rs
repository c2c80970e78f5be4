use vstd::prelude::*;

verus! {

/// If `s.skip(i)` is `p` followed by `t`, then `p` occupies `s[i..i+p.len()]`
/// and `t` is what remains after that.
pub proof fn lemma_split_at_prefix(s: Seq<char>, i: int, p: Seq<char>, t: Seq<char>)
    requires
        0 <= i <= s.len(),
        s.skip(i) == p + t,
    ensures
        i + p.len() + t.len() == s.len(),
        s.subrange(i, i + p.len()) == p,
        s.skip(i + p.len()) == t,
{
    assert(s.skip(i).len() == s.len() - i);
    assert forall|k: int| 0 <= k < p.len() implies s.subrange(i, i + p.len())[k] == p[k] by {
        assert(s.skip(i)[k] == (p + t)[k]);
    }
    assert(s.subrange(i, i + p.len()) =~= p);
    assert forall|k: int| 0 <= k < t.len() implies s.skip(i + p.len())[k] == t[k] by {
        assert(s.skip(i)[p.len() + k] == (p + t)[p.len() + k]);
        assert((p + t)[p.len() + k] == t[k]);
        assert(s.skip(i)[p.len() + k] == s[i + p.len() + k]);
        assert(s.skip(i + p.len())[k] == s[i + p.len() + k]);
    }
    assert(s.skip(i + p.len()) =~= t);
}

/// Concatenation of character sequences is associative.
pub proof fn lemma_concat_assoc(a: Seq<char>, b: Seq<char>, c: Seq<char>)
    ensures
        (a + b) + c == a + (b + c),
{
    assert((a + b) + c =~= a + (b + c));
}

} // verus!
