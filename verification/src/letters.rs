//! The letters of compressed proofs.
//!
//! A number is written in mixed radix: the last digit is one of twenty letters, and all
//! before it are one of five other letters each.

use crate::diag::Fault;
use crate::model::{
    decode, Instruction, DIGITS_LIMIT, LETTER_A, LETTER_T, LETTER_U, LETTER_Y, LETTER_Z, UNKNOWN,
};
use vstd::arithmetic::power::pow;
use vstd::prelude::*;

verus! {

/// Numbers are not negative, and nothing is saved before anything is proved.
pub open spec fn is_orderly(instructions: Seq<Instruction>, can_save: bool) -> bool
    decreases instructions.len(),
{
    instructions.len() > 0 ==> {
        let rest = instructions.drop_first();
        match instructions[0] {
            Instruction::Use(index) => index >= 0 && is_orderly(rest, true),
            Instruction::Save => can_save && is_orderly(rest, false),
            Instruction::Stop(fault) => true,
        }
    }
}

/// What is read from letters is in order.
pub proof fn lemma_decode_orderly(letters: Seq<u8>, digits: int, can_save: bool)
    requires
        digits >= 0,
    ensures
        is_orderly(decode(letters, digits, can_save), can_save),
    decreases letters.len(),
{
    if letters.len() > 0 {
        let letter = letters[0];
        let rest = letters.drop_first();
        if LETTER_A <= letter <= LETTER_T {
            lemma_decode_orderly(rest, 0, true);
            assert(decode(letters, digits, can_save).drop_first() =~= decode(rest, 0, true));
        } else if LETTER_U <= letter <= LETTER_Y {
            let digits = digits * 5 + 1 + (letter - LETTER_U);
            lemma_decode_orderly(rest, digits, false);
            lemma_orderly_weaker(decode(rest, digits, false), can_save);
        } else if letter == LETTER_Z {
            lemma_decode_orderly(rest, digits, false);
            if can_save {
                assert(decode(letters, digits, can_save).drop_first() =~= decode(
                    rest,
                    digits,
                    false,
                ));
            }
        } else if letter != UNKNOWN {
            lemma_decode_orderly(rest, digits, can_save);
        }
    }
}

proof fn lemma_orderly_weaker(instructions: Seq<Instruction>, can_save: bool)
    requires
        is_orderly(instructions, false),
    ensures
        is_orderly(instructions, can_save),
{
}

/// The letters for the leading digits of a number.
pub open spec fn encode_digits(digits: nat) -> Seq<u8>
    decreases digits,
{
    if digits == 0 {
        Seq::empty()
    } else {
        encode_digits(((digits - 1) / 5) as nat).push((LETTER_U + (digits - 1) % 5) as u8)
    }
}

/// The letters for a number.
pub open spec fn encode_number(number: nat) -> Seq<u8> {
    encode_digits(number / 20).push((LETTER_A + number % 20) as u8)
}

/// The letters for an instruction.
pub open spec fn encode(instruction: Instruction) -> Seq<u8> {
    match instruction {
        Instruction::Use(index) => encode_number(index as nat),
        Instruction::Save => seq![LETTER_Z],
        Instruction::Stop(fault) => Seq::empty(),
    }
}

/// The letters for several instructions.
pub open spec fn encode_all(instructions: Seq<Instruction>) -> Seq<u8>
    decreases instructions.len(),
{
    if instructions.len() == 0 {
        Seq::empty()
    } else {
        encode(instructions[0]) + encode_all(instructions.drop_first())
    }
}

/// Whether there are letters for an instruction: it is not one to stop, and its number is
/// not too large.
pub open spec fn has_letters(instruction: Instruction) -> bool {
    match instruction {
        Instruction::Use(index) => 0 <= index < DIGITS_LIMIT * 20,
        Instruction::Save => true,
        Instruction::Stop(fault) => false,
    }
}

/// Leading digits are read as the number that they were written for.
proof fn lemma_decode_digits(digits: nat, rest: Seq<u8>, can_save: bool)
    requires
        digits < DIGITS_LIMIT,
    ensures
        decode(encode_digits(digits) + rest, 0, can_save) == decode(
            rest,
            digits as int,
            digits == 0 && can_save,
        ),
    decreases digits,
{
    if digits == 0 {
        assert(encode_digits(digits) + rest =~= rest);
    } else {
        let leading = ((digits - 1) / 5) as nat;
        let letter = (LETTER_U + (digits - 1) % 5) as u8;
        let tail = seq![letter] + rest;
        assert(encode_digits(digits) + rest =~= encode_digits(leading) + tail);
        lemma_decode_digits(leading, tail, can_save);
        assert(tail.drop_first() =~= rest);
        assert(leading * 5 + 1 + (letter - LETTER_U) == digits);
    }
}

/// A number is read as what it was written for, whatever follows it.
pub proof fn law_number_read_back(number: nat, rest: Seq<u8>, can_save: bool)
    requires
        number < DIGITS_LIMIT * 20,
    ensures
        decode(encode_number(number) + rest, 0, can_save) == seq![Instruction::Use(number as int)]
            + decode(rest, 0, true),
{
    let leading = number / 20;
    let letter = (LETTER_A + number % 20) as u8;
    let tail = seq![letter] + rest;
    assert(encode_number(number) + rest =~= encode_digits(leading) + tail);
    lemma_decode_digits(leading, tail, can_save);
    assert(tail.drop_first() =~= rest);
    assert(leading * 20 + (letter - LETTER_A) == number);
}

/// No two numbers have the same letters.
pub proof fn law_numbers_unambiguous(left: nat, right: nat)
    requires
        left < DIGITS_LIMIT * 20,
        right < DIGITS_LIMIT * 20,
        encode_number(left) == encode_number(right),
    ensures
        left == right,
{
    law_number_read_back(left, Seq::empty(), false);
    law_number_read_back(right, Seq::empty(), false);
    let read = decode(encode_number(left) + Seq::empty(), 0, false);
    assert(read[0] == Instruction::Use(left as int));
    assert(read[0] == Instruction::Use(right as int));
}

/// Instructions are read as they were written.
pub proof fn law_instructions_read_back(instructions: Seq<Instruction>, can_save: bool)
    requires
        is_orderly(instructions, can_save),
        forall|i: int|
            0 <= i < instructions.len() ==> has_letters(#[trigger] instructions[i]),
    ensures
        decode(encode_all(instructions), 0, can_save) == instructions,
    decreases instructions.len(),
{
    if instructions.len() == 0 {
        assert(decode(encode_all(instructions), 0, can_save) =~= instructions);
    } else {
        let first = instructions[0];
        let others = instructions.drop_first();
        let rest = encode_all(others);
        assert(has_letters(first));
        assert forall|i: int| 0 <= i < others.len() implies has_letters(#[trigger] others[i]) by {
            assert(others[i] == instructions[i + 1]);
        }
        match first {
            Instruction::Use(index) => {
                law_instructions_read_back(others, true);
                law_number_read_back(index as nat, rest, can_save);
            },
            Instruction::Save => {
                law_instructions_read_back(others, false);
                let letters = seq![LETTER_Z] + rest;
                assert(letters.drop_first() =~= rest);
            },
            Instruction::Stop(fault) => {},
        }
        assert(instructions =~= seq![first] + others);
    }
}

/// Whether letters are those of a single number: leading digits, and a last one.
pub open spec fn is_number(letters: Seq<u8>) -> bool {
    &&& letters.len() > 0
    &&& are_leading(letters.drop_last())
    &&& LETTER_A <= letters.last() <= LETTER_T
}

/// Whether all letters are leading digits.
pub open spec fn are_leading(letters: Seq<u8>) -> bool {
    forall|i: int| 0 <= i < letters.len() ==> LETTER_U <= #[trigger] letters[i] <= LETTER_Y
}

/// What leading digits amount to.
pub open spec fn digits_of(letters: Seq<u8>) -> nat
    decreases letters.len(),
{
    if letters.len() == 0 {
        0
    } else {
        (digits_of(letters.drop_last()) * 5 + 1 + (letters.last() - LETTER_U)) as nat
    }
}

/// Leading digits are the letters for what they amount to.
proof fn lemma_encode_digits(letters: Seq<u8>)
    requires
        are_leading(letters),
    ensures
        encode_digits(digits_of(letters)) == letters,
    decreases letters.len(),
{
    if letters.len() > 0 {
        let front = letters.drop_last();
        let last = letters.last();
        assert(LETTER_U <= letters[letters.len() - 1] <= LETTER_Y);
        assert forall|i: int| 0 <= i < front.len() implies LETTER_U <= #[trigger] front[i]
            <= LETTER_Y by {
            assert(front[i] == letters[i]);
        }
        lemma_encode_digits(front);
        let digits = digits_of(letters);
        assert((digits - 1) / 5 == digits_of(front));
        assert((digits - 1) % 5 == last - LETTER_U);
        assert(letters =~= front.push(last));
    } else {
        assert(encode_digits(digits_of(letters)) =~= letters);
    }
}

/// Leading digits that amount to too much are a fault.
proof fn lemma_too_large(letters: Seq<u8>, rest: Seq<u8>, can_save: bool)
    requires
        are_leading(letters),
        digits_of(letters) >= DIGITS_LIMIT,
    ensures
        decode(letters + rest, 0, can_save) == seq![Instruction::Stop(Fault::ProofMalformedVarint)],
    decreases letters.len(),
{
    let front = letters.drop_last();
    let last = letters.last();
    let tail = seq![last] + rest;
    assert(LETTER_U <= letters[letters.len() - 1] <= LETTER_Y);
    assert forall|i: int| 0 <= i < front.len() implies LETTER_U <= #[trigger] front[i]
        <= LETTER_Y by {
        assert(front[i] == letters[i]);
    }
    assert(letters + rest =~= front + tail);
    if digits_of(front) >= DIGITS_LIMIT {
        lemma_too_large(front, tail, can_save);
    } else {
        lemma_encode_digits(front);
        lemma_decode_digits(digits_of(front), tail, can_save);
    }
}

/// A number has one spelling only: letters that are read as a number are those that it is
/// written with.
pub proof fn law_one_spelling(letters: Seq<u8>, number: int, can_save: bool)
    requires
        is_number(letters),
        decode(letters, 0, can_save) == seq![Instruction::Use(number)],
    ensures
        0 <= number < DIGITS_LIMIT * 20,
        letters == encode_number(number as nat),
{
    let front = letters.drop_last();
    let last = letters.last();
    let tail = seq![last];
    let read = seq![Instruction::Use(number)];
    assert(letters =~= front + tail);
    if digits_of(front) >= DIGITS_LIMIT {
        lemma_too_large(front, tail, can_save);
        assert(read[0] is Stop);
    } else {
        let digits = digits_of(front);
        lemma_encode_digits(front);
        lemma_decode_digits(digits, tail, can_save);
        assert(tail.drop_first().len() == 0);
        assert(decode(tail, digits as int, digits == 0 && can_save)[0] == Instruction::Use(
            digits * 20 + (last - LETTER_A),
        ));
        assert(read[0] == Instruction::Use(digits * 20 + (last - LETTER_A)));
        assert(number / 20 == digits && number % 20 == last - LETTER_A);
        assert(letters =~= encode_number(number as nat));
    }
}

/// Whether a byte means something among the letters of a compressed proof.
pub open spec fn has_meaning(letter: u8) -> bool {
    LETTER_A <= letter <= LETTER_Z || letter == UNKNOWN
}

/// Letters without the bytes that mean nothing.
pub open spec fn strip(letters: Seq<u8>) -> Seq<u8>
    decreases letters.len(),
{
    if letters.len() == 0 {
        letters
    } else if has_meaning(letters[0]) {
        seq![letters[0]] + strip(letters.drop_first())
    } else {
        strip(letters.drop_first())
    }
}

/// Other bytes among the letters mean nothing, wherever they stand.
pub proof fn law_other_bytes(letters: Seq<u8>, digits: int, can_save: bool)
    ensures
        decode(strip(letters), digits, can_save) == decode(letters, digits, can_save),
    decreases letters.len(),
{
    if letters.len() > 0 {
        let letter = letters[0];
        let rest = letters.drop_first();
        assert((seq![letter] + strip(rest)).drop_first() =~= strip(rest));
        if LETTER_A <= letter <= LETTER_T {
            law_other_bytes(rest, 0, true);
        } else if LETTER_U <= letter <= LETTER_Y {
            law_other_bytes(rest, digits * 5 + 1 + (letter - LETTER_U), false);
        } else if letter == LETTER_Z {
            law_other_bytes(rest, digits, false);
        } else if letter != UNKNOWN {
            law_other_bytes(rest, digits, can_save);
        }
    }
}

/// Digits and a last letter stand for twenty times what the digits amount to, and the place
/// of the letter.
pub proof fn law_number_value(letters: Seq<u8>, rest: Seq<u8>, can_save: bool)
    requires
        is_number(letters),
        digits_of(letters.drop_last()) < DIGITS_LIMIT,
    ensures
        decode(letters + rest, 0, can_save) == seq![
            Instruction::Use(digits_of(letters.drop_last()) * 20 + (letters.last() - LETTER_A)),
        ] + decode(rest, 0, true),
{
    let front = letters.drop_last();
    let tail = seq![letters.last()] + rest;
    lemma_encode_digits(front);
    lemma_decode_digits(digits_of(front), tail, can_save);
    assert(letters + rest =~= front + tail);
    assert(tail.drop_first() =~= rest);
}

/// Each leading digit counts five times as much as the next one.
pub proof fn law_digits_positional(letters: Seq<u8>)
    requires
        are_leading(letters),
        letters.len() > 0,
    ensures
        digits_of(letters) == (letters[0] - LETTER_U + 1) * pow(5, (letters.len() - 1) as nat)
            + digits_of(letters.drop_first()),
    decreases letters.len(),
{
    let front = letters.drop_last();
    let digit = letters[0] - LETTER_U + 1;
    let power = pow(5, (letters.len() - 1) as nat);
    assert(LETTER_U <= letters[0] <= LETTER_Y);
    assert(LETTER_U <= letters[letters.len() - 1] <= LETTER_Y);
    if letters.len() == 1 {
        reveal(pow);
        assert(front.len() == 0 && letters.drop_first().len() == 0);
        assert(digit * 1 == digit);
    } else {
        let smaller = pow(5, (front.len() - 1) as nat);
        assert forall|i: int| 0 <= i < front.len() implies LETTER_U <= #[trigger] front[i]
            <= LETTER_Y by {
            assert(front[i] == letters[i]);
        }
        law_digits_positional(front);
        assert(power == 5 * smaller) by {
            reveal(pow);
        }
        assert(5 * (digit * smaller) == digit * power) by (nonlinear_arith)
            requires
                power == 5 * smaller,
        ;
        assert(letters.drop_first().drop_last() =~= front.drop_first());
        assert(letters.drop_first().last() == letters.last());
    }
}

/// Digits that are left without a last letter are a fault.
pub proof fn law_pending_digits(letters: Seq<u8>, can_save: bool)
    requires
        are_leading(letters),
        letters.len() > 0,
    ensures
        decode(letters, 0, can_save) == seq![Instruction::Stop(Fault::ProofMalformedVarint)],
{
    let none = Seq::<u8>::empty();
    assert(letters + none =~= letters);
    if digits_of(letters) >= DIGITS_LIMIT {
        lemma_too_large(letters, none, can_save);
    } else {
        lemma_encode_digits(letters);
        lemma_decode_digits(digits_of(letters), none, can_save);
        assert(LETTER_U <= letters[letters.len() - 1]);
        assert(digits_of(letters) > 0);
    }
}

} // verus!
