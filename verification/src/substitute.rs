//! Substitution of expressions for variables.

use crate::bit_set::Bitset;
use crate::model::{marked, substitute, substitute_tail, variable_names};
use crate::nameck::Nameset;
use crate::scopeck::{ExprFragment, Frame, VerifyExpr};
use crate::util::{copy_portion, fast_extend, same_bytes};
use std::ops::Range;
use vstd::prelude::*;
use vstd::slice::slice_subrange;

verus! {

/// The symbols for each variable, when `vars` tells where they stand in `buffer`.
pub open spec fn buffer_values(vars: Seq<(Range<usize>, Bitset)>, buffer: Seq<u8>) -> Map<
    usize,
    Seq<u8>,
> {
    Map::new(
        |var: usize| var < vars.len(),
        |var: usize|
            buffer.subrange(vars[var as int].0.start as int, vars[var as int].0.end as int),
    )
}

/// Whether a place lies in a buffer of the given length.
pub open spec fn in_buffer(place: Range<usize>, len: nat) -> bool {
    place.start <= place.end <= len
}

/// Whether each variable of an expression has a place in a buffer of the given length.
pub open spec fn all_in_buffer(
    tail: Seq<ExprFragment>,
    vars: Seq<(Range<usize>, Bitset)>,
    len: nat,
) -> bool {
    forall|i: int|
        0 <= i < tail.len() ==> (#[trigger] tail[i]).var < vars.len() && in_buffer(
            vars[tail[i].var as int].0,
            len,
        )
}

/// A substitution depends only on the values of the variables that occur.
pub proof fn lemma_substitute_values(
    frame: Frame,
    tail: Seq<ExprFragment>,
    left: Map<usize, Seq<u8>>,
    right: Map<usize, Seq<u8>>,
)
    requires
        forall|i: int|
            0 <= i < tail.len() ==> left[(#[trigger] tail[i]).var] == right[tail[i].var],
    ensures
        substitute_tail(frame, tail, left) == substitute_tail(frame, tail, right),
    decreases tail.len(),
{
    if tail.len() > 0 {
        let shorter = tail.drop_last();
        assert forall|i: int| 0 <= i < shorter.len() implies left[(#[trigger] shorter[i]).var]
            == right[shorter[i].var] by {
            assert(shorter[i] == tail[i]);
        }
        lemma_substitute_values(frame, shorter, left, right);
        assert(tail[tail.len() - 1] == tail.last());
    }
}

/// The fragments of an expression can be substituted in two parts.
pub proof fn lemma_substitute_split(
    frame: Frame,
    tail: Seq<ExprFragment>,
    values: Map<usize, Seq<u8>>,
    i: int,
)
    requires
        0 <= i <= tail.len(),
    ensures
        substitute_tail(frame, tail, values) == substitute_tail(frame, tail.take(i), values)
            + substitute_tail(frame, tail.skip(i), values),
    decreases tail.len() - i,
{
    let front = substitute_tail(frame, tail.take(i), values);
    if i == tail.len() {
        assert(tail.take(i) =~= tail);
        assert(tail.skip(i).len() == 0);
        assert(front =~= front + substitute_tail(frame, tail.skip(i), values));
    } else {
        let shorter = tail.drop_last();
        lemma_substitute_split(frame, shorter, values, i);
        assert(shorter.take(i) =~= tail.take(i));
        assert(tail.skip(i).drop_last() =~= shorter.skip(i));
        assert(tail.skip(i).last() == tail.last());
        assert(substitute_tail(frame, tail, values) =~= front + substitute_tail(
            frame,
            tail.skip(i),
            values,
        ));
    }
}

/// One more fragment.
proof fn lemma_substitute_step(
    frame: Frame,
    tail: Seq<ExprFragment>,
    values: Map<usize, Seq<u8>>,
    i: int,
)
    requires
        0 <= i < tail.len(),
    ensures
        substitute_tail(frame, tail.take(i + 1), values) == substitute_tail(
            frame,
            tail.take(i),
            values,
        ) + frame.constants(tail[i].prefix) + values[tail[i].var],
{
    assert(tail.take(i + 1).drop_last() =~= tail.take(i));
    assert(tail.take(i + 1).last() == tail[i]);
}

/// Appends the symbols of `expr` to `target`.  `vars` tells where in `target` the
/// expression for each variable stands.
pub fn do_substitute(
    target: &mut Vec<u8>,
    frame: &Frame,
    expr: &VerifyExpr,
    vars: &[(Range<usize>, Bitset)],
)
    requires
        frame.holds_constants(*expr),
        all_in_buffer(expr.tail@, vars@, old(target)@.len()),
    ensures
        final(target)@ == old(target)@ + substitute(
            *frame,
            *expr,
            buffer_values(vars@, old(target)@),
        ),
{
    let ghost before = target@;
    let ghost values = buffer_values(vars@, before);
    let mut i: usize = 0;
    assert(expr.tail@.take(0).len() == 0);
    assert(target@ =~= before + substitute_tail(*frame, expr.tail@.take(0), values));
    while i < expr.tail.len()
        invariant
            i <= expr.tail@.len(),
            frame.holds_constants(*expr),
            all_in_buffer(expr.tail@, vars@, before.len()),
            values == buffer_values(vars@, before),
            target@ == before + substitute_tail(*frame, expr.tail@.take(i as int), values),
        decreases expr.tail@.len() - i,
    {
        let part: &ExprFragment = &expr.tail[i];
        assert(*part == expr.tail@[i as int]);
        let constants: &[u8] = slice_subrange(
            frame.const_pool.as_slice(),
            part.prefix.start,
            part.prefix.end,
        );
        fast_extend(target, constants);
        let place: &Range<usize> = &vars[part.var].0;
        copy_portion(target, place.start, place.end);
        proof {
            assert(target@.subrange(place.start as int, place.end as int) =~= before.subrange(
                place.start as int,
                place.end as int,
            ));
            lemma_substitute_step(*frame, expr.tail@, values, i as int);
            assert(target@ =~= before + substitute_tail(*frame, expr.tail@.take(i + 1), values));
        }
        i += 1;
    }
    assert(expr.tail@.take(i as int) =~= expr.tail@);
    let rump: &[u8] = slice_subrange(frame.const_pool.as_slice(), expr.rump.start, expr.rump.end);
    fast_extend(target, rump);
    assert(target@ =~= before + substitute(*frame, *expr, values));
}

/// What is left of `compare` after `part`, if it begins with that.
fn step<'a>(compare: &'a [u8], part: &[u8]) -> (rest: Option<&'a [u8]>)
    ensures
        match rest {
            Some(rest) => compare@ == part@ + rest@,
            None => forall|more: Seq<u8>| compare@ != #[trigger] (part@ + more),
        },
{
    let len: usize = part.len();
    if compare.len() < len {
        proof {
            assert forall|more: Seq<u8>| compare@ != #[trigger] (part@ + more) by {
                assert((part@ + more).len() >= part@.len());
            }
        }
        return None;
    }
    if !same_bytes(part, slice_subrange(compare, 0, len)) {
        proof {
            assert forall|more: Seq<u8>| compare@ != #[trigger] (part@ + more) by {
                assert((part@ + more).subrange(0, len as int) =~= part@);
            }
        }
        return None;
    }
    let rest: &'a [u8] = slice_subrange(compare, len, compare.len());
    assert(compare@ =~= part@ + rest@);
    Some(rest)
}

/// Whether `compare` has the symbols of `expr`.  `vars` tells where in `var_buffer` the
/// expression for each variable stands.
pub fn do_substitute_eq(
    compare: &[u8],
    frame: &Frame,
    expr: &VerifyExpr,
    vars: &[(Range<usize>, Bitset)],
    var_buffer: &[u8],
) -> (equal: bool)
    requires
        frame.holds_constants(*expr),
        all_in_buffer(expr.tail@, vars@, var_buffer@.len()),
    ensures
        equal == (compare@ == substitute(*frame, *expr, buffer_values(vars@, var_buffer@))),
{
    let ghost values = buffer_values(vars@, var_buffer@);
    let ghost tail = expr.tail@;
    let ghost whole = substitute(*frame, *expr, values);
    let ghost end = frame.constants(expr.rump);
    let mut rest: &[u8] = compare;
    let mut i: usize = 0;
    proof {
        assert(tail.skip(0) =~= tail);
        assert(tail.take(0).len() == 0);
        assert(compare@ =~= substitute_tail(*frame, tail.take(0), values) + rest@);
    }
    while i < expr.tail.len()
        invariant
            i <= tail.len(),
            tail == expr.tail@,
            frame.holds_constants(*expr),
            all_in_buffer(tail, vars@, var_buffer@.len()),
            values == buffer_values(vars@, var_buffer@),
            end == frame.constants(expr.rump),
            whole == substitute(*frame, *expr, values),
            compare@ == substitute_tail(*frame, tail.take(i as int), values) + rest@,
        decreases tail.len() - i,
    {
        let part: &ExprFragment = &expr.tail[i];
        assert(*part == tail[i as int]);
        let ghost front = substitute_tail(*frame, tail.take(i as int), values);
        let ghost back = substitute_tail(*frame, tail.skip(i + 1), values) + end;
        let constants: &[u8] = slice_subrange(
            frame.const_pool.as_slice(),
            part.prefix.start,
            part.prefix.end,
        );
        let place: &Range<usize> = &vars[part.var].0;
        let value: &[u8] = slice_subrange(var_buffer, place.start, place.end);
        proof {
            lemma_substitute_step(*frame, tail, values, i as int);
            lemma_substitute_split(*frame, tail, values, i + 1);
            assert(whole =~= front + (constants@ + (value@ + back)));
            if compare@ == whole {
                assert(rest@ =~= compare@.skip(front.len() as int));
                assert(rest@ =~= constants@ + (value@ + back));
            }
        }
        let after: &[u8] = match step(rest, constants) {
            Some(after) => after,
            None => {
                return false;
            },
        };
        proof {
            if compare@ == whole {
                assert(after@ =~= rest@.skip(constants@.len() as int));
                assert(after@ =~= value@ + back);
            }
        }
        let left: &[u8] = match step(after, value) {
            Some(left) => left,
            None => {
                return false;
            },
        };
        rest = left;
        i += 1;
        assert(compare@ =~= substitute_tail(*frame, tail.take(i as int), values) + rest@);
    }
    let ghost front = substitute_tail(*frame, tail, values);
    proof {
        assert(tail.take(i as int) =~= tail);
        if compare@ == whole {
            assert(rest@ =~= compare@.skip(front.len() as int));
            assert(rest@ =~= end);
        }
    }
    let rump: &[u8] = slice_subrange(frame.const_pool.as_slice(), expr.rump.start, expr.rump.end);
    let same: bool = same_bytes(rest, rump);
    proof {
        if same {
            assert(compare@ == whole);
        }
    }
    same
}

/// Appends a symbol to `target`, with its end marked.
pub fn push_symbol(target: &mut Vec<u8>, name: &[u8])
    requires
        name@.len() > 0,
    ensures
        final(target)@ == old(target)@ + marked(name@),
{
    fast_extend(target, name);
    let last: usize = target.len() - 1;
    target[last] = target[last] | 0x80;
    assert(target@ =~= old(target)@ + marked(name@));
}

/// Appends the symbols of `expr` to `target`, each variable standing for itself.
pub fn do_substitute_raw(
    target: &mut Vec<u8>,
    frame: &Frame,
    expr: &VerifyExpr,
    nameset: &Nameset,
)
    requires
        frame.has_names(nameset@),
        frame.holds_constants(*expr),
        frame.lists_all(*expr),
    ensures
        final(target)@ == old(target)@ + substitute(
            *frame,
            *expr,
            variable_names(*frame, nameset@),
        ),
{
    let ghost before = target@;
    let ghost values = variable_names(*frame, nameset@);
    let mut i: usize = 0;
    assert(expr.tail@.take(0).len() == 0);
    assert(target@ =~= before + substitute_tail(*frame, expr.tail@.take(0), values));
    while i < expr.tail.len()
        invariant
            i <= expr.tail@.len(),
            frame.has_names(nameset@),
            frame.holds_constants(*expr),
            frame.lists_all(*expr),
            values == variable_names(*frame, nameset@),
            target@ == before + substitute_tail(*frame, expr.tail@.take(i as int), values),
        decreases expr.tail@.len() - i,
    {
        let part: &ExprFragment = &expr.tail[i];
        assert(*part == expr.tail@[i as int]);
        let constants: &[u8] = slice_subrange(
            frame.const_pool.as_slice(),
            part.prefix.start,
            part.prefix.end,
        );
        fast_extend(target, constants);
        push_symbol(target, nameset.atom_name(frame.var_list[part.var]));
        proof {
            lemma_substitute_step(*frame, expr.tail@, values, i as int);
            assert(target@ =~= before + substitute_tail(*frame, expr.tail@.take(i + 1), values));
        }
        i += 1;
    }
    assert(expr.tail@.take(i as int) =~= expr.tail@);
    let rump: &[u8] = slice_subrange(frame.const_pool.as_slice(), expr.rump.start, expr.rump.end);
    fast_extend(target, rump);
    assert(target@ =~= before + substitute(*frame, *expr, values));
}

/// The variables in what `vars` puts in place of the variables of `expr`.
pub fn do_substitute_vars(expr: &[ExprFragment], vars: &[(Range<usize>, Bitset)]) -> (out: Bitset)
    requires
        forall|i: int| 0 <= i < expr@.len() ==> (#[trigger] expr@[i]).var < vars@.len(),
    ensures
        forall|var: usize|
            out@.contains(var) <==> exists|i: int|
                0 <= i < expr@.len() && vars@[(#[trigger] expr@[i]).var as int].1@.contains(var),
{
    let mut out = Bitset::new();
    let mut i: usize = 0;
    while i < expr.len()
        invariant
            i <= expr@.len(),
            forall|k: int| 0 <= k < expr@.len() ==> (#[trigger] expr@[k]).var < vars@.len(),
            forall|var: usize|
                out@.contains(var) <==> exists|k: int|
                    0 <= k < i && vars@[(#[trigger] expr@[k]).var as int].1@.contains(var),
        decreases expr@.len() - i,
    {
        let ghost prior = out@;
        out.union_with(&vars[expr[i].var].1);
        proof {
            assert forall|var: usize|
                out@.contains(var) <==> exists|k: int|
                    0 <= k < i + 1 && vars@[(#[trigger] expr@[k]).var as int].1@.contains(var) by {
                if vars@[expr@[i as int].var as int].1@.contains(var) {
                    assert(out@.contains(var));
                }
                if out@.contains(var) && prior.contains(var) {
                    let k = choose|k: int|
                        0 <= k < i && vars@[(#[trigger] expr@[k]).var as int].1@.contains(var);
                    assert(vars@[expr@[k].var as int].1@.contains(var));
                }
            }
        }
        i += 1;
    }
    out
}

} // verus!
