//! Instances of expressions: what substitution puts where.

use crate::model::{substitute, substitute_tail, variable_names};
use crate::scopeck::{Frame, VerifyExpr};
use crate::substitute::lemma_substitute_values;
use vstd::prelude::*;

verus! {

/// The instance of an expression is made of its constants and of the values of its
/// variables, in order and without gaps: fragment `i` begins at `at[i]` with its constants,
/// the value of its variable follows, and after the last fragment come the last constants
/// and nothing else.
pub proof fn law_instance_in_order(
    frame: Frame,
    expr: VerifyExpr,
    values: Map<usize, Seq<u8>>,
) -> (at: Seq<int>)
    requires
        expr.rump.start <= expr.rump.end <= frame.const_pool@.len(),
        forall|i: int|
            0 <= i < expr.tail@.len() ==> (#[trigger] expr.tail@[i]).prefix.start
                <= expr.tail@[i].prefix.end <= frame.const_pool@.len(),
    ensures
        at.len() == expr.tail@.len() + 1,
        at[0] == 0,
        forall|i: int|
            0 <= i < expr.tail@.len() ==> {
                let part = #[trigger] expr.tail@[i];
                let middle = at[i] + (part.prefix.end - part.prefix.start);
                let text = substitute(frame, expr, values);
                &&& 0 <= at[i] <= middle <= at[i + 1] <= text.len()
                &&& text.subrange(at[i], middle) == frame.const_pool@.subrange(
                    part.prefix.start as int,
                    part.prefix.end as int,
                )
                &&& text.subrange(middle, at[i + 1]) == values[part.var]
            },
        ({
            let text = substitute(frame, expr, values);
            let end = at[expr.tail@.len() as int];
            &&& 0 <= end <= text.len()
            &&& text.subrange(end, text.len() as int) == frame.const_pool@.subrange(
                expr.rump.start as int,
                expr.rump.end as int,
            )
        }),
{
    let tail = expr.tail@;
    let text = substitute(frame, expr, values);
    let at = Seq::new(
        (tail.len() + 1) as nat,
        |i: int| substitute_tail(frame, tail.take(i), values).len() as int,
    );
    assert(tail.take(0).len() == 0);
    assert(tail.take(tail.len() as int) =~= tail);
    assert forall|i: int| 0 <= i <= tail.len() implies ({
        let front = #[trigger] substitute_tail(frame, tail.take(i), values);
        front.len() <= text.len() && text.take(front.len() as int) == front
    }) by {
        lemma_front(frame, expr, values, i);
    }
    assert forall|i: int| 0 <= i < tail.len() implies ({
        let part = #[trigger] tail[i];
        let middle = at[i] + (part.prefix.end - part.prefix.start);
        &&& 0 <= at[i] <= middle <= at[i + 1] <= text.len()
        &&& text.subrange(at[i], middle) == frame.const_pool@.subrange(
            part.prefix.start as int,
            part.prefix.end as int,
        )
        &&& text.subrange(middle, at[i + 1]) == values[part.var]
    }) by {
        let part = tail[i];
        let front = substitute_tail(frame, tail.take(i), values);
        let next = substitute_tail(frame, tail.take(i + 1), values);
        assert(tail.take(i + 1).drop_last() =~= tail.take(i));
        assert(tail.take(i + 1).last() == part);
        let constants = frame.const_pool@.subrange(
            part.prefix.start as int,
            part.prefix.end as int,
        );
        assert(next == front + constants + values[part.var]);
        let middle = at[i] + (part.prefix.end - part.prefix.start);
        assert(text.take(next.len() as int) == next);
        assert(text.subrange(at[i], middle) =~= constants) by {
            assert forall|k: int| 0 <= k < constants.len() implies text.subrange(at[i], middle)[k]
                == constants[k] by {
                assert(text.take(next.len() as int)[at[i] + k] == next[at[i] + k]);
            }
        }
        assert(text.subrange(middle, at[i + 1]) =~= values[part.var]) by {
            assert forall|k: int| 0 <= k < values[part.var].len() implies text.subrange(
                middle,
                at[i + 1],
            )[k] == values[part.var][k] by {
                assert(text.take(next.len() as int)[middle + k] == next[middle + k]);
            }
        }
    }
    let whole = substitute_tail(frame, tail, values);
    assert(text.subrange(whole.len() as int, text.len() as int) =~= frame.const_pool@.subrange(
        expr.rump.start as int,
        expr.rump.end as int,
    ));
    at
}

proof fn lemma_front(frame: Frame, expr: VerifyExpr, values: Map<usize, Seq<u8>>, i: int)
    requires
        0 <= i <= expr.tail@.len(),
    ensures
        ({
            let text = substitute(frame, expr, values);
            let front = substitute_tail(frame, expr.tail@.take(i), values);
            front.len() <= text.len() && text.take(front.len() as int) == front
        }),
    decreases expr.tail@.len() - i,
{
    let tail = expr.tail@;
    let text = substitute(frame, expr, values);
    let front = substitute_tail(frame, tail.take(i), values);
    if i == tail.len() {
        assert(tail.take(i) =~= tail);
        assert(text.take(front.len() as int) =~= front);
    } else {
        lemma_front(frame, expr, values, i + 1);
        let next = substitute_tail(frame, tail.take(i + 1), values);
        assert(tail.take(i + 1).drop_last() =~= tail.take(i));
        assert(next.take(front.len() as int) =~= front);
        assert(text.take(front.len() as int) =~= text.take(next.len() as int).take(
            front.len() as int,
        ));
    }
}

/// An expression without variables is its own constants, whatever is put in place of
/// variables; so two such expressions have the same instances just if they have the same
/// constants.
pub proof fn law_constant_instances(
    left: Frame,
    first: VerifyExpr,
    a: Map<usize, Seq<u8>>,
    right: Frame,
    second: VerifyExpr,
    b: Map<usize, Seq<u8>>,
)
    requires
        first.tail@.len() == 0,
        second.tail@.len() == 0,
        first.rump.start <= first.rump.end <= left.const_pool@.len(),
        second.rump.start <= second.rump.end <= right.const_pool@.len(),
    ensures
        substitute(left, first, a) == left.const_pool@.subrange(
            first.rump.start as int,
            first.rump.end as int,
        ),
        substitute(left, first, a) == substitute(right, second, b)
            <==> left.const_pool@.subrange(first.rump.start as int, first.rump.end as int)
            == right.const_pool@.subrange(second.rump.start as int, second.rump.end as int),
{
    assert(substitute(left, first, a) =~= left.const_pool@.subrange(
        first.rump.start as int,
        first.rump.end as int,
    ));
    assert(substitute(right, second, b) =~= right.const_pool@.subrange(
        second.rump.start as int,
        second.rump.end as int,
    ));
}

/// An expression that goes on with one more fragment has an instance that goes on with the
/// constants and the value of that fragment: it is longer by their lengths.
pub proof fn law_instance_longer(
    frame: Frame,
    shorter: VerifyExpr,
    longer: VerifyExpr,
    values: Map<usize, Seq<u8>>,
)
    requires
        longer.tail@.len() == shorter.tail@.len() + 1,
        longer.tail@.drop_last() == shorter.tail@,
        shorter.rump.start == shorter.rump.end <= frame.const_pool@.len(),
        longer.rump.start <= longer.rump.end <= frame.const_pool@.len(),
        longer.tail@.last().prefix.start <= longer.tail@.last().prefix.end
            <= frame.const_pool@.len(),
    ensures
        ({
            let part = longer.tail@.last();
            substitute(frame, longer, values) == substitute(frame, shorter, values)
                + frame.const_pool@.subrange(part.prefix.start as int, part.prefix.end as int)
                + values[part.var] + frame.const_pool@.subrange(
                longer.rump.start as int,
                longer.rump.end as int,
            )
        }),
        substitute(frame, longer, values).len() == substitute(frame, shorter, values).len() + (
        longer.tail@.last().prefix.end - longer.tail@.last().prefix.start)
            + values[longer.tail@.last().var].len() + (longer.rump.end - longer.rump.start),
{
    let part = longer.tail@.last();
    assert(substitute(frame, shorter, values) =~= substitute_tail(frame, shorter.tail@, values));
    assert(substitute(frame, longer, values) =~= substitute(frame, shorter, values)
        + frame.const_pool@.subrange(part.prefix.start as int, part.prefix.end as int)
        + values[part.var] + frame.const_pool@.subrange(
        longer.rump.start as int,
        longer.rump.end as int,
    ));
}

/// Instances differ only where values of variables differ that occur in the expression.
pub proof fn law_instance_depends(
    frame: Frame,
    expr: VerifyExpr,
    left: Map<usize, Seq<u8>>,
    right: Map<usize, Seq<u8>>,
)
    requires
        forall|i: int|
            0 <= i < expr.tail@.len() ==> left[(#[trigger] expr.tail@[i]).var]
                == right[expr.tail@[i].var],
    ensures
        substitute(frame, expr, left) == substitute(frame, expr, right),
{
    lemma_substitute_values(frame, expr.tail@, left, right);
}

/// A variable that stands for itself is spelled with its name: the same bytes, of which the
/// last has its top bit set.
pub proof fn law_variable_spelled(frame: Frame, names: Seq<Seq<u8>>, var: usize)
    requires
        var < frame.var_list@.len(),
        names[frame.var_list@[var as int] as int].len() > 0,
    ensures
        variable_names(frame, names).contains_key(var),
        ({
            let name = names[frame.var_list@[var as int] as int];
            let spelled = variable_names(frame, names)[var];
            &&& spelled.len() == name.len()
            &&& forall|i: int| 0 <= i < name.len() - 1 ==> #[trigger] spelled[i] == name[i]
            &&& spelled.last() >= 0x80
            &&& spelled.last() & 0x7f == name.last() & 0x7f
        }),
{
    let last = names[frame.var_list@[var as int] as int].last();
    assert(last | 0x80 >= 0x80) by (bit_vector);
    assert((last | 0x80) & 0x7f == last & 0x7f) by (bit_vector);
}

} // verus!
