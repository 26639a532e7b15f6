//! Compressed proofs, step by step: which of them are accepted, and what is told of the
//! others.
//!
//! A compressed proof refers to items by number: to the hypotheses of the statement, then to
//! the statements of its list, then to the judgements that it saves.

use crate::citation::{is_essential, law_named_hypothesis, law_refused_citation};
use crate::diag::Fault;
use crate::formats::lemma_list_ends;
use crate::letters::{is_orderly, lemma_decode_orderly};
use crate::meaning::{
    are_premises, is_cited, is_proper, is_rule, lemma_follows, lemma_other_judgement,
    lemma_own_judgement, lemma_premises, lemma_proper, lemma_spelled, other_judgement, outcome,
    own_judgement, spelled,
};
use crate::model::{
    apply, concat, decode, execute, follow, follow_all, frame_fits, prepare, prepare_all,
    proof_fault, roster_end, run_proof, start_compressed, substitute, Context, Instruction,
    ProofState, Step,
};
use crate::nameck::Atom;
use crate::rosters::{law_instructions_compose, lemma_prepare_is};
use crate::scopeck::Frame;
use crate::soundness::{
    denotes, follows, lemma_denotes_kept, lemma_hypothesis_denotes, lemma_start_numbers,
    numbers_fit, numbers_kept, result, usable, Judgement,
};
use crate::traces::{
    all_suit, are_bound, denote, is_misfit, lemma_misfit, lemma_named, lemma_pushed, lemma_top,
    lemma_undeclared,
};
use crate::verify::{lemma_prepare_all_stops, lemma_roster_end};
use vstd::prelude::*;

verus! {

/// What a number of a compressed proof refers to.
pub enum Item {
    /// Something that is put on the stack.
    Judged(Judgement),
    /// The label of an axiom or a theorem.
    Cited(Seq<u8>),
}

/// The item that a label of the list stands for.
pub open spec fn is_item(context: Context, own: Frame, label: Seq<u8>, item: Item) -> bool {
    let frame = context.frames[label];
    if !context.frames.contains_key(label) {
        exists|i: int|
            #![trigger is_essential(context, own, label, i)]
            {
                &&& is_essential(context, own, label, i)
                &&& forall|j: int| 0 <= j < i ==> !#[trigger] is_essential(context, own, label, j)
                &&& item == Item::Judged(
                    own_judgement(own, context.names, own.hypotheses@[i]),
                )
            }
    } else {
        &&& is_cited(context, own, label)
        &&& item == if is_rule(frame) {
            Item::Cited(label)
        } else {
            Item::Judged(other_judgement(frame))
        }
    }
}

/// The items that letters begin with, when `listed` are those of the list.
pub open spec fn first_items(context: Context, own: Frame, listed: Seq<Item>) -> Seq<Item> {
    Seq::new(
        own.hypotheses@.len(),
        |i: int| Item::Judged(own_judgement(own, context.names, own.hypotheses@[i])),
    ) + listed
}

/// An item is used: a judgement is put on the stack, and a rule is applied to its top.
pub open spec fn is_use(
    context: Context,
    own: Frame,
    item: Item,
    before: Seq<Judgement>,
    after: Seq<Judgement>,
    values: Map<usize, Judgement>,
) -> bool {
    match item {
        Item::Judged(judgement) => after == before.push(judgement),
        Item::Cited(label) => {
            let frame = context.frames[label];
            let base = before.len() - frame.hypotheses@.len();
            &&& 0 <= base
            &&& are_premises(own, frame, before.skip(base), values)
            &&& after == before.take(base).push(outcome(frame, values))
        },
    }
}

/// The course of instructions: the stack and the items before and after each of them.
pub struct Course {
    pub stacks: Seq<Seq<Judgement>>,
    pub items: Seq<Seq<Item>>,
    pub values: Seq<Map<usize, Judgement>>,
}

/// One instruction of a course: a number uses the item with that number, and a judgement that
/// is saved becomes the next item.
pub open spec fn is_turn(
    context: Context,
    own: Frame,
    instruction: Instruction,
    course: Course,
    k: int,
) -> bool {
    match instruction {
        Instruction::Use(index) => {
            &&& 0 <= index < course.items[k].len()
            &&& is_use(
                context,
                own,
                course.items[k][index],
                course.stacks[k],
                course.stacks[k + 1],
                course.values[k],
            )
            &&& course.items[k + 1] == course.items[k]
        },
        Instruction::Save => {
            &&& course.stacks[k].len() > 0
            &&& course.stacks[k + 1] == course.stacks[k]
            &&& course.items[k + 1] == course.items[k].push(Item::Judged(course.stacks[k].last()))
        },
        Instruction::Stop(fault) => false,
    }
}

/// Instructions have a course that begins with an empty stack and the given items.
pub open spec fn is_course(
    context: Context,
    own: Frame,
    instructions: Seq<Instruction>,
    items: Seq<Item>,
    course: Course,
) -> bool {
    &&& course.stacks.len() == instructions.len() + 1
    &&& course.items.len() == instructions.len() + 1
    &&& course.values.len() == instructions.len()
    &&& course.stacks[0].len() == 0
    &&& course.items[0] == items
    &&& forall|k: int|
        0 <= k < instructions.len() ==> is_turn(
            context,
            own,
            #[trigger] instructions[k],
            course,
            k,
        )
}

/// The words of a compressed proof: `(`, labels, and `)` as word number `end`.
pub open spec fn is_list(words: Seq<Seq<u8>>, end: int) -> bool {
    &&& 1 <= end < words.len()
    &&& words[0] == seq![0x28u8]
    &&& words[end] == seq![0x29u8]
    &&& forall|i: int| 1 <= i < end ==> #[trigger] words[i] != seq![0x29u8]
}

// ---------------------------------------------------------------------------------
// Items and steps
// ---------------------------------------------------------------------------------

/// A step is the one that an item stands for.
spec fn is_step_of(
    context: Context,
    own: Frame,
    bits: Map<Atom, usize>,
    step: Step,
    item: Item,
) -> bool {
    match item {
        Item::Judged(judgement) => step matches Step::Hyp(slot) && denotes(bits, slot, judgement),
        Item::Cited(label) => {
            &&& is_cited(context, own, label)
            &&& is_rule(context.frames[label])
            &&& step == Step::Assert(context.frames[label])
        },
    }
}

spec fn items_fit(context: Context, own: Frame, state: ProofState, items: Seq<Item>) -> bool {
    &&& state.prepared.len() == items.len()
    &&& forall|i: int|
        0 <= i < items.len() ==> is_step_of(
            context,
            own,
            state.bits,
            #[trigger] state.prepared[i],
            items[i],
        )
}

proof fn lemma_item_kept(
    context: Context,
    own: Frame,
    before: Map<Atom, usize>,
    after: Map<Atom, usize>,
    step: Step,
    item: Item,
)
    requires
        numbers_kept(before, after),
        is_step_of(context, own, before, step, item),
    ensures
        is_step_of(context, own, after, step, item),
{
    if let Item::Judged(judgement) = item {
        lemma_denotes_kept(before, after, step->Hyp_0, judgement);
    }
}

/// A label has an item just if it can be made available, and its step is that of the item.
proof fn lemma_item_ready(
    context: Context,
    own: Frame,
    state: ProofState,
    label: Seq<u8>,
    item: Item,
)
    requires
        is_proper(context, own),
        numbers_fit(own, state.bits),
        is_item(context, own, label, item),
    ensures
        ({
            let after = prepare(context, own, state, label).state;
            &&& prepare(context, own, state, label).fault is None
            &&& numbers_fit(own, after.bits)
            &&& numbers_kept(state.bits, after.bits)
            &&& after.stack == state.stack
            &&& after.prepared.len() == state.prepared.len() + 1
            &&& after.prepared == state.prepared.push(after.prepared.last())
            &&& is_step_of(context, own, after.bits, after.prepared.last(), item)
        }),
{
    lemma_proper(context, own);
    if !context.frames.contains_key(label) {
        let i = choose|i: int|
            #![trigger is_essential(context, own, label, i)]
            {
                &&& is_essential(context, own, label, i)
                &&& forall|j: int| 0 <= j < i ==> !#[trigger] is_essential(context, own, label, j)
                &&& item == Item::Judged(
                    own_judgement(own, context.names, own.hypotheses@[i]),
                )
            };
        lemma_named(context, own, label, i);
        lemma_own_judgement(own, context.names, own.hypotheses@[i]);
    } else {
        lemma_other_judgement(context.frames[label]);
    }
    lemma_prepare_is(context, own, state, label);
}

/// The item of a label that can be made available.
proof fn lemma_ready_item(
    context: Context,
    own: Frame,
    state: ProofState,
    label: Seq<u8>,
) -> (item: Item)
    requires
        prepare(context, own, state, label).fault is None,
    ensures
        is_item(context, own, label, item),
{
    if !context.frames.contains_key(label) {
        law_named_hypothesis(context, own, state, label);
        let i = choose|i: int|
            0 <= i && #[trigger] is_essential(context, own, label, i) && forall|j: int|
                0 <= j < i ==> !#[trigger] is_essential(context, own, label, j);
        assert(is_essential(context, own, label, i));
        Item::Judged(own_judgement(own, context.names, own.hypotheses@[i]))
    } else {
        law_refused_citation(context, own, state, label);
        if is_rule(context.frames[label]) {
            Item::Cited(label)
        } else {
            Item::Judged(other_judgement(context.frames[label]))
        }
    }
}

/// A list of labels that have items can be made available, and its steps are those of the
/// items.
proof fn lemma_items_ready(
    context: Context,
    own: Frame,
    labels: Seq<Seq<u8>>,
    listed: Seq<Item>,
)
    requires
        is_proper(context, own),
        labels.len() == listed.len(),
        forall|r: int|
            0 <= r < labels.len() ==> is_item(context, own, #[trigger] labels[r], listed[r]),
    ensures
        ({
            let run = prepare_all(context, own, start_compressed(own, context.names), labels);
            &&& run.fault is None
            &&& numbers_fit(own, run.state.bits)
            &&& run.state.stack.len() == 0
            &&& items_fit(context, own, run.state, first_items(context, own, listed))
        }),
    decreases labels.len(),
{
    let first = start_compressed(own, context.names);
    let items = first_items(context, own, listed);
    lemma_proper(context, own);
    if labels.len() == 0 {
        lemma_start_numbers(own);
        assert forall|i: int| 0 <= i < items.len() implies is_step_of(
            context,
            own,
            first.bits,
            #[trigger] first.prepared[i],
            items[i],
        ) by {
            let hyp = own.hypotheses@[i];
            assert(own.hypothesis_can_prove(hyp));
            lemma_hypothesis_denotes(own, context.names, first.bits, hyp);
            lemma_own_judgement(own, context.names, hyp);
        }
    } else {
        let front = labels.drop_last();
        let n = front.len() as int;
        assert forall|r: int| 0 <= r < front.len() implies is_item(
            context,
            own,
            #[trigger] front[r],
            listed.drop_last()[r],
        ) by {
            assert(front[r] == labels[r]);
        }
        lemma_items_ready(context, own, front, listed.drop_last());
        let earlier = prepare_all(context, own, first, front).state;
        assert(is_item(context, own, labels[n], listed[n]));
        lemma_item_ready(context, own, earlier, labels.last(), listed.last());
        let state = prepare_all(context, own, first, labels).state;
        let before = first_items(context, own, listed.drop_last());
        assert forall|i: int| 0 <= i < items.len() implies is_step_of(
            context,
            own,
            state.bits,
            #[trigger] state.prepared[i],
            items[i],
        ) by {
            if i < before.len() {
                assert(items[i] == before[i]);
                assert(state.prepared[i] == earlier.prepared[i]);
                lemma_item_kept(
                    context,
                    own,
                    earlier.bits,
                    state.bits,
                    earlier.prepared[i],
                    before[i],
                );
            } else {
                assert(items[i] == listed.last());
            }
        }
    }
}

/// A list of labels that was made available has items.
proof fn lemma_listed_items(context: Context, own: Frame, labels: Seq<Seq<u8>>) -> (listed: Seq<
    Item,
>)
    requires
        prepare_all(context, own, start_compressed(own, context.names), labels).fault is None,
    ensures
        listed.len() == labels.len(),
        forall|r: int|
            0 <= r < labels.len() ==> is_item(context, own, #[trigger] labels[r], listed[r]),
    decreases labels.len(),
{
    if labels.len() == 0 {
        Seq::empty()
    } else {
        let front = labels.drop_last();
        let earlier = prepare_all(
            context,
            own,
            start_compressed(own, context.names),
            front,
        ).state;
        let listed = lemma_listed_items(context, own, front);
        let item = lemma_ready_item(context, own, earlier, labels.last());
        assert forall|r: int| 0 <= r < labels.len() implies is_item(
            context,
            own,
            #[trigger] labels[r],
            listed.push(item)[r],
        ) by {
            if r < front.len() {
                assert(front[r] == labels[r]);
            }
        }
        listed.push(item)
    }
}

// ---------------------------------------------------------------------------------
// Instructions
// ---------------------------------------------------------------------------------

spec fn fits(
    context: Context,
    own: Frame,
    state: ProofState,
    stack: Seq<Judgement>,
    items: Seq<Item>,
) -> bool {
    denote(own, state, stack) && items_fit(context, own, state, items)
}

proof fn lemma_used(
    context: Context,
    own: Frame,
    state: ProofState,
    before: Seq<Judgement>,
    items: Seq<Item>,
    index: int,
    after: Seq<Judgement>,
    values: Map<usize, Judgement>,
)
    requires
        is_proper(context, own),
        fits(context, own, state, before, items),
        0 <= index < items.len(),
        is_use(context, own, items[index], before, after, values),
    ensures
        execute(own, state, index).fault is None,
        fits(context, own, execute(own, state, index).state, after, items),
{
    let run = execute(own, state, index);
    lemma_proper(context, own);
    assert(is_step_of(context, own, state.bits, state.prepared[index], items[index]));
    match items[index] {
        Item::Judged(judgement) => {
            lemma_pushed(
                own,
                state,
                run.state,
                before,
                state.prepared[index]->Hyp_0,
                judgement,
            );
        },
        Item::Cited(label) => {
            let frame = context.frames[label];
            let base = before.len() - frame.hypotheses@.len();
            lemma_follows(context, own, label, before.skip(base), values);
            assert(frame_fits(context.positions.len(), frame));
            lemma_top(own, frame, state, before);
        },
    }
}

proof fn lemma_use_found(
    context: Context,
    own: Frame,
    state: ProofState,
    before: Seq<Judgement>,
    items: Seq<Item>,
    index: int,
) -> (used: (Seq<Judgement>, Map<usize, Judgement>))
    requires
        is_proper(context, own),
        fits(context, own, state, before, items),
        0 <= index,
        execute(own, state, index).fault is None,
    ensures
        index < items.len(),
        is_use(context, own, items[index], before, used.0, used.1),
        fits(context, own, execute(own, state, index).state, used.0, items),
{
    let run = execute(own, state, index);
    lemma_proper(context, own);
    assert(is_step_of(context, own, state.bits, state.prepared[index], items[index]));
    match items[index] {
        Item::Judged(judgement) => {
            lemma_pushed(
                own,
                state,
                run.state,
                before,
                state.prepared[index]->Hyp_0,
                judgement,
            );
            (before.push(judgement), Map::empty())
        },
        Item::Cited(label) => {
            let frame = context.frames[label];
            let base = before.len() - frame.hypotheses@.len();
            let premises = before.skip(base);
            assert(frame_fits(context.positions.len(), frame));
            lemma_top(own, frame, state, before);
            let judgement = result(frame, premises);
            assert(usable(context, own, label));
            assert(follows(context, own, label, premises, judgement));
            let values = lemma_premises(context, own, label, premises, judgement);
            (before.take(base).push(judgement), values)
        },
    }
}

proof fn lemma_saved(
    context: Context,
    own: Frame,
    state: ProofState,
    stack: Seq<Judgement>,
    items: Seq<Item>,
)
    requires
        fits(context, own, state, stack, items),
        stack.len() > 0,
    ensures
        fits(
            context,
            own,
            follow(own, state, Instruction::Save).state,
            stack,
            items.push(Item::Judged(stack.last())),
        ),
{
    let after = follow(own, state, Instruction::Save).state;
    let longer = items.push(Item::Judged(stack.last()));
    assert(denotes(state.bits, state.stack[stack.len() - 1], stack[stack.len() - 1]));
    assert forall|i: int| 0 <= i < stack.len() implies denotes(
        after.bits,
        #[trigger] after.stack[i],
        stack[i],
    ) by {
        assert(denotes(state.bits, state.stack[i], stack[i]));
    }
    assert forall|i: int| 0 <= i < longer.len() implies is_step_of(
        context,
        own,
        after.bits,
        #[trigger] after.prepared[i],
        longer[i],
    ) by {
        if i < items.len() {
            assert(after.prepared[i] == state.prepared[i]);
        }
    }
}

proof fn lemma_turn(
    context: Context,
    own: Frame,
    instruction: Instruction,
    course: Course,
    k: int,
    state: ProofState,
)
    requires
        is_proper(context, own),
        fits(context, own, state, course.stacks[k], course.items[k]),
        is_turn(context, own, instruction, course, k),
    ensures
        follow(own, state, instruction).fault is None,
        fits(
            context,
            own,
            follow(own, state, instruction).state,
            course.stacks[k + 1],
            course.items[k + 1],
        ),
{
    match instruction {
        Instruction::Use(index) => {
            lemma_used(
                context,
                own,
                state,
                course.stacks[k],
                course.items[k],
                index,
                course.stacks[k + 1],
                course.values[k],
            );
        },
        Instruction::Save => {
            lemma_saved(context, own, state, course.stacks[k], course.items[k]);
        },
        Instruction::Stop(fault) => {},
    }
}

/// Instructions that have a course are carried out without a fault.
proof fn lemma_course_followed(
    context: Context,
    own: Frame,
    state: ProofState,
    instructions: Seq<Instruction>,
    course: Course,
    n: int,
)
    requires
        is_proper(context, own),
        0 <= n <= instructions.len(),
        course.stacks.len() > n,
        course.items.len() > n,
        fits(context, own, state, course.stacks[0], course.items[0]),
        forall|k: int|
            0 <= k < n ==> is_turn(context, own, #[trigger] instructions[k], course, k),
    ensures
        follow_all(own, state, instructions.take(n)).fault is None,
        fits(
            context,
            own,
            follow_all(own, state, instructions.take(n)).state,
            course.stacks[n],
            course.items[n],
        ),
    decreases n,
{
    if n == 0 {
        assert(instructions.take(0).len() == 0);
    } else {
        lemma_course_followed(context, own, state, instructions, course, n - 1);
        let before = follow_all(own, state, instructions.take(n - 1)).state;
        assert(is_turn(context, own, instructions[n - 1], course, n - 1));
        lemma_turn(context, own, instructions[n - 1], course, n - 1, before);
        lemma_follow_next(own, state, instructions, n - 1);
    }
}

/// One more instruction.
proof fn lemma_follow_next(
    own: Frame,
    state: ProofState,
    instructions: Seq<Instruction>,
    n: int,
)
    requires
        0 <= n < instructions.len(),
        follow_all(own, state, instructions.take(n)).fault is None,
    ensures
        follow_all(own, state, instructions.take(n + 1)) == follow(
            own,
            follow_all(own, state, instructions.take(n)).state,
            instructions[n],
        ),
{
    let last = seq![instructions[n]];
    let before = follow_all(own, state, instructions.take(n)).state;
    assert(instructions.take(n + 1) =~= instructions.take(n) + last);
    law_instructions_compose(own, state, instructions.take(n), last);
    assert(last.drop_first().len() == 0);
    let first = follow(own, before, instructions[n]);
    assert(follow_all(own, first.state, last.drop_first()).state == first.state);
}

/// Where an instruction is at fault, that is the fault of all.
proof fn lemma_follow_stops(
    own: Frame,
    state: ProofState,
    instructions: Seq<Instruction>,
    n: int,
)
    requires
        0 <= n <= instructions.len(),
        follow_all(own, state, instructions.take(n)).fault is Some,
    ensures
        follow_all(own, state, instructions) == follow_all(own, state, instructions.take(n)),
{
    assert(instructions =~= instructions.take(n) + instructions.skip(n));
    law_instructions_compose(own, state, instructions.take(n), instructions.skip(n));
}

/// Instructions that are carried out without a fault have a course.
proof fn lemma_followed_course(
    context: Context,
    own: Frame,
    state: ProofState,
    items: Seq<Item>,
    instructions: Seq<Instruction>,
    n: int,
) -> (course: Course)
    requires
        is_proper(context, own),
        0 <= n <= instructions.len(),
        fits(context, own, state, Seq::empty(), items),
        is_orderly(instructions, false),
        follow_all(own, state, instructions.take(n)).fault is None,
    ensures
        is_course(context, own, instructions.take(n), items, course),
        fits(
            context,
            own,
            follow_all(own, state, instructions.take(n)).state,
            course.stacks[n],
            course.items[n],
        ),
    decreases n,
{
    if n == 0 {
        assert(instructions.take(0).len() == 0);
        Course { stacks: seq![Seq::empty()], items: seq![items], values: Seq::empty() }
    } else {
        if follow_all(own, state, instructions.take(n - 1)).fault is Some {
            assert(instructions.take(n).take(n - 1) =~= instructions.take(n - 1));
            lemma_follow_stops(own, state, instructions.take(n), n - 1);
        }
        let course = lemma_followed_course(context, own, state, items, instructions, n - 1);
        let before = follow_all(own, state, instructions.take(n - 1)).state;
        let instruction = instructions[n - 1];
        lemma_follow_next(own, state, instructions, n - 1);
        assert forall|j: int| 0 <= j < n - 1 implies !(#[trigger] instructions[j] is Stop) by {
            assert(is_turn(context, own, instructions.take(n - 1)[j], course, j));
        }
        lemma_orderly_at(instructions, false, n - 1);
        let (stack, now, value) = match instruction {
            Instruction::Use(index) => {
                let (stack, value) = lemma_use_found(
                    context,
                    own,
                    before,
                    course.stacks[n - 1],
                    course.items[n - 1],
                    index,
                );
                (stack, course.items[n - 1], value)
            },
            Instruction::Save => {
                assert(instructions[n - 2] is Use);
                assert(is_turn(context, own, instructions.take(n - 1)[n - 2], course, n - 2));
                lemma_saved(context, own, before, course.stacks[n - 1], course.items[n - 1]);
                (
                    course.stacks[n - 1],
                    course.items[n - 1].push(Item::Judged(course.stacks[n - 1].last())),
                    Map::empty(),
                )
            },
            Instruction::Stop(fault) => (Seq::empty(), Seq::empty(), Map::empty()),
        };
        let longer = Course {
            stacks: course.stacks.push(stack),
            items: course.items.push(now),
            values: course.values.push(value),
        };
        assert forall|k: int| 0 <= k < n implies is_turn(
            context,
            own,
            #[trigger] instructions.take(n)[k],
            longer,
            k,
        ) by {
            if k < n - 1 {
                assert(instructions.take(n - 1)[k] == instructions.take(n)[k]);
                assert(is_turn(context, own, instructions.take(n - 1)[k], course, k));
                assert(longer.stacks[k] == course.stacks[k]);
                assert(longer.stacks[k + 1] == course.stacks[k + 1]);
                assert(longer.items[k] == course.items[k]);
                assert(longer.items[k + 1] == course.items[k + 1]);
                assert(longer.values[k] == course.values[k]);
            }
        }
        longer
    }
}

/// In orderly instructions, numbers are not negative, and what is saved was just used.
proof fn lemma_orderly_at(instructions: Seq<Instruction>, can_save: bool, k: int)
    requires
        is_orderly(instructions, can_save),
        0 <= k < instructions.len(),
        forall|j: int| 0 <= j < k ==> !(#[trigger] instructions[j] is Stop),
    ensures
        instructions[k] matches Instruction::Use(index) ==> index >= 0,
        instructions[k] is Save ==> if k == 0 {
            can_save
        } else {
            instructions[k - 1] is Use
        },
    decreases k,
{
    if k > 0 {
        let rest = instructions.drop_first();
        assert(!(instructions[0] is Stop));
        assert forall|j: int| 0 <= j < k - 1 implies !(#[trigger] rest[j] is Stop) by {
            assert(rest[j] == instructions[j + 1]);
        }
        match instructions[0] {
            Instruction::Use(index) => {
                lemma_orderly_at(rest, true, k - 1);
            },
            Instruction::Save => {
                lemma_orderly_at(rest, false, k - 1);
            },
            Instruction::Stop(fault) => {},
        }
        assert(rest[k - 1] == instructions[k]);
        if k > 1 {
            assert(rest[k - 2] == instructions[k - 1]);
        }
    }
}

// ---------------------------------------------------------------------------------
// Proofs
// ---------------------------------------------------------------------------------

/// The letters of a compressed proof are those of all words after its list, in a row.
pub proof fn law_words_joined(words: Seq<Seq<u8>>, word: Seq<u8>)
    ensures
        concat(Seq::empty()) == Seq::<u8>::empty(),
        concat(words.push(word)) == concat(words) + word,
    decreases words.len(),
{
    if words.len() == 0 {
        assert(words.push(word).drop_first() =~= words);
        assert(concat(words.push(word)) =~= concat(words) + word);
    } else {
        law_words_joined(words.drop_first(), word);
        assert(words.push(word).drop_first() =~= words.drop_first().push(word));
        assert(words.push(word)[0] == words[0]);
        assert(concat(words.push(word)) =~= concat(words) + word);
    }
}

proof fn lemma_begun(
    context: Context,
    own: Frame,
    words: Seq<Seq<u8>>,
    end: int,
    listed: Seq<Item>,
)
    requires
        is_proper(context, own),
        is_list(words, end),
        listed.len() == end - 1,
        forall|r: int| 1 <= r < end ==> is_item(context, own, #[trigger] words[r], listed[r - 1]),
    ensures
        ({
            let labels = words.subrange(1, end);
            let run = prepare_all(context, own, start_compressed(own, context.names), labels);
            let items = first_items(context, own, listed);
            &&& run.fault is None
            &&& fits(context, own, run.state, Seq::empty(), items)
            &&& run_proof(context, own, words) == follow_all(
                own,
                run.state,
                decode(concat(words.skip(end + 1)), 0, false),
            )
        }),
{
    let labels = words.subrange(1, end);
    lemma_list_ends(words, 1, end);
    assert forall|r: int| 0 <= r < labels.len() implies is_item(
        context,
        own,
        #[trigger] labels[r],
        listed[r],
    ) by {
        assert(labels[r] == words[r + 1]);
    }
    lemma_items_ready(context, own, labels, listed);
}

/// A compressed proof whose labels have items and whose letters have a course has the verdict
/// that goes by what is left on the stack: nothing, more than one judgement, one of another
/// type or with other symbols than the statement are faults, and the statement itself is none.
pub proof fn law_compressed_traced(
    context: Context,
    own: Frame,
    words: Seq<Seq<u8>>,
    end: int,
    listed: Seq<Item>,
    course: Course,
)
    requires
        is_proper(context, own),
        is_list(words, end),
        listed.len() == end - 1,
        forall|r: int| 1 <= r < end ==> is_item(context, own, #[trigger] words[r], listed[r - 1]),
        is_course(
            context,
            own,
            decode(concat(words.skip(end + 1)), 0, false),
            first_items(context, own, listed),
            course,
        ),
    ensures
        ({
            let left = course.stacks.last();
            proof_fault(context, own, words) == if left.len() == 0 {
                Some(Fault::ProofNoSteps)
            } else if left.len() > 1 {
                Some(Fault::ProofExcessEnd)
            } else if left[0].code != own.target.typecode {
                Some(Fault::ProofWrongTypeEnd)
            } else if left[0].expr != substitute(own, own.target, spelled(own, context.names)) {
                Some(Fault::ProofWrongExprEnd)
            } else {
                None::<Fault>
            }
        }),
{
    let instructions = decode(concat(words.skip(end + 1)), 0, false);
    let labels = words.subrange(1, end);
    let state = prepare_all(
        context,
        own,
        start_compressed(own, context.names),
        labels,
    ).state;
    lemma_begun(context, own, words, end, listed);
    assert(course.stacks[0] =~= Seq::empty());
    lemma_course_followed(
        context,
        own,
        state,
        instructions,
        course,
        instructions.len() as int,
    );
    assert(instructions.take(instructions.len() as int) =~= instructions);
    lemma_spelled(own, context.names);
    let last = run_proof(context, own, words).state;
    if course.stacks.last().len() == 1 {
        assert(denotes(last.bits, last.stack[0], course.stacks.last()[0]));
    }
}

/// An accepted compressed proof has a list whose labels have items, and letters that have a
/// course which ends with the statement alone.
pub proof fn law_compressed_accepted(context: Context, own: Frame, words: Seq<Seq<u8>>) -> (found: (
    int,
    Seq<Item>,
    Course,
))
    requires
        is_proper(context, own),
        words.len() > 0,
        words[0] == seq![0x28u8],
        proof_fault(context, own, words) is None,
    ensures
        is_list(words, found.0),
        found.1.len() == found.0 - 1,
        forall|r: int|
            1 <= r < found.0 ==> is_item(context, own, #[trigger] words[r], found.1[r - 1]),
        is_course(
            context,
            own,
            decode(concat(words.skip(found.0 + 1)), 0, false),
            first_items(context, own, found.1),
            found.2,
        ),
        found.2.stacks.last().len() == 1,
        found.2.stacks.last()[0].code == own.target.typecode,
        found.2.stacks.last()[0].expr == substitute(own, own.target, spelled(own, context.names)),
{
    let end = roster_end(words, 1);
    lemma_roster_end(words, 1);
    lemma_list_start(words, 1);
    let labels = words.subrange(1, end);
    let listed = lemma_listed_items(context, own, labels);
    assert forall|r: int| 1 <= r < end implies is_item(
        context,
        own,
        #[trigger] words[r],
        listed[r - 1],
    ) by {
        assert(labels[r - 1] == words[r]);
    }
    let letters = concat(words.skip(end + 1));
    let instructions = decode(letters, 0, false);
    lemma_begun(context, own, words, end, listed);
    lemma_decode_orderly(letters, 0, false);
    let state = prepare_all(
        context,
        own,
        start_compressed(own, context.names),
        labels,
    ).state;
    assert(instructions.take(instructions.len() as int) =~= instructions);
    let course = lemma_followed_course(
        context,
        own,
        state,
        first_items(context, own, listed),
        instructions,
        instructions.len() as int,
    );
    law_compressed_traced(context, own, words, end, listed, course);
    (end, listed, course)
}

proof fn lemma_list_start(words: Seq<Seq<u8>>, from: int)
    requires
        0 <= from,
    ensures
        roster_end(words, from) < words.len() ==> words[roster_end(words, from)] == seq![0x29u8],
        forall|i: int|
            from <= i < roster_end(words, from) ==> #[trigger] words[i] != seq![0x29u8],
    decreases words.len() - from,
{
    if from < words.len() && words[from] != seq![0x29u8] {
        lemma_list_start(words, from + 1);
    }
}

/// A list of labels that has no end, or comes to a label that has no item, is at fault there.
pub proof fn law_list_stopped(
    context: Context,
    own: Frame,
    words: Seq<Seq<u8>>,
    k: int,
    listed: Seq<Item>,
)
    requires
        is_proper(context, own),
        words.len() > 0,
        words[0] == seq![0x28u8],
        1 <= k <= words.len(),
        listed.len() == k - 1,
        forall|r: int|
            1 <= r < k ==> #[trigger] words[r] != seq![0x29u8] && is_item(
                context,
                own,
                words[r],
                listed[r - 1],
            ),
        k < words.len() ==> words[k] != seq![0x29u8],
    ensures
        ({
            let label = words[k];
            let frame = context.frames[label];
            let here = own.valid.start;
            let there = context.positions[frame.valid.start.segment_id as int];
            let position = context.positions[here.segment_id as int];
            let late = there > position || (there == position && frame.valid.start.index
                >= here.index);
            let fault = proof_fault(context, own, words);
            if k == words.len() {
                fault == Some(Fault::ProofUnterminatedRoster)
            } else if !context.frames.contains_key(label) {
                (forall|n: int| 0 <= n ==> !#[trigger] is_essential(context, own, label, n))
                    ==> fault == Some(Fault::StepMissing(label))
            } else if late {
                fault == Some(Fault::StepUsedBeforeDefinition(label))
            } else if !is_cited(context, own, label) {
                fault == Some(Fault::StepUsedAfterScope(label))
            } else {
                true
            }
        }),
{
    let end = roster_end(words, 1);
    let first = start_compressed(own, context.names);
    let labels = words.subrange(1, end);
    lemma_roster_end(words, 1);
    lemma_list_start(words, 1);
    assert(k <= end) by {
        if end < k {
            assert(words[end] != seq![0x29u8]);
        }
    }
    if k < words.len() {
        assert(k < end) by {
            if end == k {
                assert(words[end] == seq![0x29u8]);
            }
        }
    }
    let front = labels.take(k - 1);
    assert forall|r: int| 0 <= r < front.len() implies is_item(
        context,
        own,
        #[trigger] front[r],
        listed[r],
    ) by {
        assert(front[r] == words[r + 1]);
    }
    lemma_items_ready(context, own, front, listed);
    if k == words.len() {
        assert(front =~= labels);
    } else {
        let label = words[k];
        let state = prepare_all(context, own, first, front).state;
        assert(labels.take(k).drop_last() =~= front);
        assert(labels.take(k).last() == label);
        if prepare(context, own, state, label).fault is Some {
            lemma_prepare_all_stops(context, own, first, labels, k);
        }
        if !context.frames.contains_key(label) {
            law_named_hypothesis(context, own, state, label);
        } else {
            law_refused_citation(context, own, state, label);
        }
    }
}

/// Where the course of the letters comes to an instruction that cannot be carried out, that
/// is the fault of the proof, and it tells why: what the letters themselves are at fault with;
/// a number that no item has; too few judgements for the hypotheses of a rule; the first that
/// does not suit its hypothesis; or variables that have to be distinct and are not declared
/// so.
pub proof fn law_compressed_stopped(
    context: Context,
    own: Frame,
    words: Seq<Seq<u8>>,
    end: int,
    listed: Seq<Item>,
    course: Course,
    k: int,
    values: Map<usize, Judgement>,
    i: int,
)
    requires
        is_proper(context, own),
        is_list(words, end),
        listed.len() == end - 1,
        forall|r: int| 1 <= r < end ==> is_item(context, own, #[trigger] words[r], listed[r - 1]),
        0 <= k < decode(concat(words.skip(end + 1)), 0, false).len(),
        is_course(
            context,
            own,
            decode(concat(words.skip(end + 1)), 0, false).take(k),
            first_items(context, own, listed),
            course,
        ),
    ensures
        ({
            let fault = proof_fault(context, own, words);
            let before = course.stacks[k];
            let items = course.items[k];
            match decode(concat(words.skip(end + 1)), 0, false)[k] {
                Instruction::Stop(other) => fault == Some(other),
                Instruction::Save => true,
                Instruction::Use(index) => if index >= items.len() {
                    fault == Some(Fault::StepOutOfRange)
                } else {
                    items[index] matches Item::Cited(label) ==> {
                        let frame = context.frames[label];
                        let count = frame.hypotheses@.len();
                        let premises = before.skip(before.len() - count);
                        if before.len() < count {
                            fault == Some(Fault::ProofUnderflow)
                        } else {
                            &&& are_bound(frame, premises, values) && is_misfit(
                                frame,
                                premises,
                                values,
                                i,
                            ) ==> fault == Some(
                                if premises[i].code == frame.hypotheses@[i].expr.typecode {
                                    Fault::StepEssenWrong
                                } else if frame.hypotheses@[i].variable_index is Some {
                                    Fault::StepFloatWrongType
                                } else {
                                    Fault::StepEssenWrongType
                                },
                            )
                            &&& are_bound(frame, premises, values) && all_suit(
                                frame,
                                premises,
                                values,
                            ) && !are_premises(own, frame, premises, values) ==> fault == Some(
                                Fault::ProofDvViolation,
                            )
                        }
                    }
                },
            }
        }),
{
    let letters = concat(words.skip(end + 1));
    let instructions = decode(letters, 0, false);
    let labels = words.subrange(1, end);
    let start = prepare_all(
        context,
        own,
        start_compressed(own, context.names),
        labels,
    ).state;
    lemma_begun(context, own, words, end, listed);
    lemma_decode_orderly(letters, 0, false);
    assert(course.stacks[0] =~= Seq::empty());
    assert forall|n: int| 0 <= n < k implies is_turn(
        context,
        own,
        #[trigger] instructions[n],
        course,
        n,
    ) by {
        assert(instructions.take(k)[n] == instructions[n]);
    }
    lemma_course_followed(context, own, start, instructions, course, k);
    lemma_follow_next(own, start, instructions, k);
    let state = follow_all(own, start, instructions.take(k)).state;
    let run = follow(own, state, instructions[k]);
    if run.fault is Some {
        lemma_follow_stops(own, start, instructions, k + 1);
        assert(proof_fault(context, own, words) == run.fault);
    }
    let before = course.stacks[k];
    let items = course.items[k];
    assert forall|n: int| 0 <= n < k implies !(#[trigger] instructions[n] is Stop) by {
        assert(is_turn(context, own, instructions[n], course, n));
    }
    lemma_orderly_at(instructions, false, k);
    if let Instruction::Use(index) = instructions[k] {
        if index < items.len() {
            assert(is_step_of(context, own, state.bits, state.prepared[index], items[index]));
            if let Item::Cited(label) = items[index] {
                let frame = context.frames[label];
                let count = frame.hypotheses@.len();
                assert(run.fault == apply(frame, state.stack, own.optional_dv@).1);
                if count <= before.len() {
                    let premises = before.skip(before.len() - count);
                    if are_bound(frame, premises, values) {
                        if is_misfit(frame, premises, values, i) {
                            lemma_misfit(context, own, label, state, before, values, i);
                        }
                        if all_suit(frame, premises, values) && !are_premises(
                            own,
                            frame,
                            premises,
                            values,
                        ) {
                            lemma_undeclared(context, own, label, state, before, values);
                        }
                    }
                }
            }
        }
    }
}

} // verus!
