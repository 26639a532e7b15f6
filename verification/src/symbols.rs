//! Symbols in expressions.

use crate::model::marked;
use vstd::prelude::*;

verus! {

/// Whether bytes can be a symbol: there are some, and none has its top bit set.
pub open spec fn is_symbol(name: Seq<u8>) -> bool {
    name.len() > 0 && forall|i: int| 0 <= i < name.len() ==> #[trigger] name[i] < 0x80
}

/// Symbols as they stand in an expression.
pub open spec fn spell(symbols: Seq<Seq<u8>>) -> Seq<u8>
    decreases symbols.len(),
{
    if symbols.len() == 0 {
        Seq::empty()
    } else {
        marked(symbols[0]) + spell(symbols.drop_first())
    }
}

proof fn lemma_mark(left: u8, right: u8)
    requires
        left < 0x80,
        right < 0x80,
    ensures
        left | 0x80 >= 0x80,
        (left | 0x80) == (right | 0x80) ==> left == right,
{
    assert(left | 0x80 >= 0x80) by (bit_vector);
    assert((left | 0x80) == (right | 0x80) ==> left == right) by (bit_vector)
        requires
            left < 0x80,
            right < 0x80,
    ;
}

/// The first symbol of an expression can be told from its bytes.
proof fn lemma_first_symbol(left: Seq<u8>, right: Seq<u8>, a: Seq<u8>, b: Seq<u8>)
    requires
        is_symbol(left),
        is_symbol(right),
        marked(left) + a == marked(right) + b,
    ensures
        left == right,
        a == b,
{
    let whole = marked(left) + a;
    let i = left.len() - 1;
    let j = right.len() - 1;
    lemma_mark(left[i], left[i]);
    lemma_mark(right[j], right[j]);
    assert(whole[i] == left[i] | 0x80);
    assert(whole[j] == right[j] | 0x80);
    if i < j {
        assert(whole[i] == right[i]);
    } else if j < i {
        assert(whole[j] == left[j]);
    }
    lemma_mark(left[i], right[j]);
    assert(left =~= right) by {
        assert forall|k: int| 0 <= k < left.len() implies left[k] == right[k] by {
            if k < i {
                assert(whole[k] == left[k]);
                assert(whole[k] == right[k]);
            }
        }
    }
    assert(a =~= whole.skip(left.len() as int));
    assert(b =~= whole.skip(left.len() as int));
}

/// Expressions with the same bytes have the same symbols.
pub proof fn law_spelling_unambiguous(left: Seq<Seq<u8>>, right: Seq<Seq<u8>>)
    requires
        forall|i: int| 0 <= i < left.len() ==> is_symbol(#[trigger] left[i]),
        forall|i: int| 0 <= i < right.len() ==> is_symbol(#[trigger] right[i]),
        spell(left) == spell(right),
    ensures
        left == right,
    decreases left.len(),
{
    if left.len() == 0 || right.len() == 0 {
        if left.len() > 0 {
            assert(is_symbol(left[0]));
            assert(spell(left).len() > 0);
        }
        if right.len() > 0 {
            assert(is_symbol(right[0]));
            assert(spell(right).len() > 0);
        }
        assert(left =~= right);
    } else {
        let a = left.drop_first();
        let b = right.drop_first();
        assert(is_symbol(left[0]) && is_symbol(right[0]));
        lemma_first_symbol(left[0], right[0], spell(a), spell(b));
        assert forall|i: int| 0 <= i < a.len() implies is_symbol(#[trigger] a[i]) by {
            assert(a[i] == left[i + 1]);
        }
        assert forall|i: int| 0 <= i < b.len() implies is_symbol(#[trigger] b[i]) by {
            assert(b[i] == right[i + 1]);
        }
        law_spelling_unambiguous(a, b);
        assert(left =~= seq![left[0]] + a);
        assert(right =~= seq![right[0]] + b);
    }
}

/// The spelling of symbols in a row is their spellings in a row.
pub proof fn law_spelling_joins(left: Seq<Seq<u8>>, right: Seq<Seq<u8>>)
    ensures
        spell(left + right) == spell(left) + spell(right),
    decreases left.len(),
{
    if left.len() == 0 {
        assert(left + right =~= right);
        assert(spell(left) + spell(right) =~= spell(right));
    } else {
        law_spelling_joins(left.drop_first(), right);
        assert((left + right).drop_first() =~= left.drop_first() + right);
        assert(spell(left + right) =~= spell(left) + spell(right));
    }
}

} // verus!
