//! The additive key digest.

use vstd::prelude::*;

verus! {

/// What one character adds to a digest: its code point times 33.
pub open spec fn weight(c: char) -> nat {
    (c as nat) * 33
}

/// The digest of a text: the sum of the weights of its characters.
pub open spec fn time33(text: Seq<char>) -> nat
    decreases text.len(),
{
    if text.len() == 0 {
        0
    } else {
        time33(text.drop_last()) + weight(text.last())
    }
}

/// Reading one more character adds that character's weight to the digest of
/// the part read so far.
proof fn lemma_time33_step(text: Seq<char>, n: int)
    requires
        0 <= n < text.len(),
    ensures
        time33(text.take(n + 1)) == time33(text.take(n)) + weight(text[n]),
{
    assert(text.take(n + 1).drop_last() =~= text.take(n));
}

/// The digest of a part read so far never exceeds the digest of the whole.
proof fn lemma_time33_prefix(text: Seq<char>, n: int)
    requires
        0 <= n <= text.len(),
    ensures
        time33(text.take(n)) <= time33(text),
    decreases text.len() - n,
{
    if n < text.len() {
        lemma_time33_step(text, n);
        lemma_time33_prefix(text, n + 1);
    } else {
        assert(text.take(n) =~= text);
    }
}

/// Taking one character out of a text takes that character's weight off the
/// digest, wherever the character stood.
proof fn lemma_time33_remove(text: Seq<char>, at: int)
    requires
        0 <= at < text.len(),
    ensures
        time33(text) == time33(text.remove(at)) + weight(text[at]),
    decreases text.len(),
{
    if at == text.len() - 1 {
        assert(text.remove(at) =~= text.drop_last());
    } else {
        lemma_time33_remove(text.drop_last(), at);
        assert(text.remove(at).drop_last() =~= text.drop_last().remove(at));
    }
}

/// The digest does not depend on the order of the characters: texts with the
/// same characters, each as often in one as in the other, have the same
/// digest.
pub proof fn lemma_time33_anagram(a: Seq<char>, b: Seq<char>)
    requires
        a.to_multiset() == b.to_multiset(),
    ensures
        time33(a) == time33(b),
    decreases a.len(),
{
    vstd::seq_lib::to_multiset_len(a);
    vstd::seq_lib::to_multiset_len(b);
    if a.len() > 0 {
        let c = a.last();
        vstd::seq_lib::to_multiset_contains(a, c);
        vstd::seq_lib::to_multiset_contains(b, c);
        assert(a[a.len() - 1] == c);
        let at = choose|i: int| 0 <= i < b.len() && b[i] == c;
        vstd::seq_lib::to_multiset_remove(a, a.len() - 1);
        vstd::seq_lib::to_multiset_remove(b, at);
        assert(a.remove(a.len() - 1) =~= a.drop_last());
        lemma_time33_anagram(a.drop_last(), b.remove(at));
        lemma_time33_remove(b, at);
    }
}

/// Computes the weight of one character.
fn char_weight(c: char) -> (w: usize)
    ensures
        w == weight(c),
{
    (c as usize) * 33
}

/// Computes the digest of `t`.
pub fn time33_key_fn(t: &str) -> (digest: usize)
    requires
        time33(t@) <= usize::MAX,
    ensures
        digest == time33(t@),
{
    let mut acc: usize = 0;
    for c in it: t.chars()
        invariant
            it.seq() == t@,
            acc == time33(t@.take(it.index() as int)),
            time33(t@) <= usize::MAX,
    {
        proof {
            lemma_time33_step(t@, it.index() as int);
            lemma_time33_prefix(t@, it.index() + 1);
        }
        acc = acc + char_weight(c);
    }
    assert(t@.take(t@.len() as int) =~= t@);
    acc
}

/// Computes the digest of `t` where it lies below `bound`, and reports that it
/// does not where it does not. The scan stops at the first character that
/// takes the running sum to `bound` or past it, so no text is too long for it.
pub fn time33_below(t: &str, bound: usize) -> (digest: Option<usize>)
    ensures
        digest == if time33(t@) < bound {
            Some(time33(t@) as usize)
        } else {
            None
        },
{
    if bound == 0 {
        return None;
    }
    let mut acc: usize = 0;
    for c in it: t.chars()
        invariant
            it.seq() == t@,
            acc == time33(t@.take(it.index() as int)),
            acc < bound,
    {
        proof {
            lemma_time33_step(t@, it.index() as int);
            lemma_time33_prefix(t@, it.index() + 1);
        }
        let w = char_weight(c);
        if w >= bound - acc {
            return None;
        }
        acc = acc + w;
    }
    assert(t@.take(t@.len() as int) =~= t@);
    Some(acc)
}

} // verus!
