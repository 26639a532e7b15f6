//! Operations on byte strings.

use vstd::prelude::*;

verus! {

/// Appends `bytes` to `target`.
pub fn fast_extend(target: &mut Vec<u8>, bytes: &[u8])
    ensures
        final(target)@ == old(target)@ + bytes@,
{
    target.extend_from_slice(bytes);
    assert(target@ =~= old(target)@ + bytes@);
}

/// Appends a copy of `target[start..end]` to `target` itself.
pub fn copy_portion(target: &mut Vec<u8>, start: usize, end: usize)
    requires
        start <= end <= old(target)@.len(),
    ensures
        final(target)@ == old(target)@ + old(target)@.subrange(start as int, end as int),
{
    let mut i: usize = start;
    while i < end
        invariant
            start <= i <= end <= old(target)@.len(),
            target@ == old(target)@ + old(target)@.subrange(start as int, i as int),
        decreases end - i,
    {
        let byte: u8 = target[i];
        target.push(byte);
        i += 1;
        assert(target@ =~= old(target)@ + old(target)@.subrange(start as int, i as int));
    }
    assert(target@ =~= old(target)@ + old(target)@.subrange(start as int, end as int));
}

/// An owned copy of `bytes`.
pub fn copy_token(bytes: &[u8]) -> (token: Vec<u8>)
    ensures
        token@ == bytes@,
{
    let mut token: Vec<u8> = Vec::new();
    fast_extend(&mut token, bytes);
    assert(token@ =~= bytes@);
    token
}

/// Whether two byte strings are the same.
pub fn same_bytes(left: &[u8], right: &[u8]) -> (same: bool)
    ensures
        same == (left@ == right@),
{
    if left.len() != right.len() {
        return false;
    }
    let mut i: usize = 0;
    while i < left.len()
        invariant
            i <= left@.len() == right@.len(),
            forall|j: int| 0 <= j < i ==> left@[j] == right@[j],
        decreases left@.len() - i,
    {
        if left[i] != right[i] {
            return false;
        }
        i += 1;
    }
    assert(left@ =~= right@);
    true
}

/// The dictionary order on byte strings.
pub open spec fn lex_less(left: Seq<u8>, right: Seq<u8>) -> bool
    decreases left.len(),
{
    if right.len() == 0 {
        false
    } else if left.len() == 0 {
        true
    } else if left[0] != right[0] {
        left[0] < right[0]
    } else {
        lex_less(left.drop_first(), right.drop_first())
    }
}

/// Nothing comes before itself.
pub proof fn lemma_lex_irreflexive(bytes: Seq<u8>)
    ensures
        !lex_less(bytes, bytes),
    decreases bytes.len(),
{
    if bytes.len() > 0 {
        lemma_lex_irreflexive(bytes.drop_first());
    }
}

/// What comes before something comes before all that follows it.
pub proof fn lemma_lex_transitive(a: Seq<u8>, b: Seq<u8>, c: Seq<u8>)
    requires
        lex_less(a, b),
        lex_less(b, c),
    ensures
        lex_less(a, c),
    decreases a.len(),
{
    if a.len() > 0 && a[0] == b[0] && b[0] == c[0] {
        lemma_lex_transitive(a.drop_first(), b.drop_first(), c.drop_first());
    }
}

/// Of two different words one comes first.
pub proof fn lemma_lex_total(a: Seq<u8>, b: Seq<u8>)
    ensures
        lex_less(a, b) || a == b || lex_less(b, a),
    decreases a.len(),
{
    if a.len() > 0 && b.len() > 0 {
        if a[0] == b[0] {
            lemma_lex_total(a.drop_first(), b.drop_first());
            if a.drop_first() == b.drop_first() {
                assert(a =~= seq![a[0]] + a.drop_first());
                assert(b =~= seq![b[0]] + b.drop_first());
            }
        }
    } else if a.len() == b.len() {
        assert(a =~= b);
    }
}

/// Whether `left` comes before `right` in the dictionary.
pub fn is_less(left: &[u8], right: &[u8]) -> (less: bool)
    ensures
        less == lex_less(left@, right@),
{
    let mut i: usize = 0;
    assert(left@.skip(0) =~= left@);
    assert(right@.skip(0) =~= right@);
    while i < left.len() && i < right.len() && left[i] == right[i]
        invariant
            i <= left@.len(),
            i <= right@.len(),
            lex_less(left@, right@) == lex_less(left@.skip(i as int), right@.skip(i as int)),
        decreases left@.len() - i,
    {
        assert(left@.skip(i as int).drop_first() =~= left@.skip(i + 1));
        assert(right@.skip(i as int).drop_first() =~= right@.skip(i + 1));
        i += 1;
    }
    if i >= right.len() {
        return false;
    }
    if i >= left.len() {
        return true;
    }
    left[i] < right[i]
}

} // verus!
