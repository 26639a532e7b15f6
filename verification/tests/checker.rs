use metamath_verify::bit_set::Bitset;
use metamath_verify::diag::Diagnostic;
use metamath_verify::fitness::{is_database_fit, is_database_sound, is_setting_sound};
use metamath_verify::nameck::Nameset;
use metamath_verify::parser::{
    GlobalRange, Segment, SegmentOrder, Statement, StatementAddress, StatementType, NO_STATEMENT,
};
use metamath_verify::scopeck::{ExprFragment, Frame, Hyp, ScopeResult, VerifyExpr};
use metamath_verify::segment_set::{SegmentRef, SegmentSet};
use metamath_verify::verify::{verify, VerifyResult};
use std::sync::Arc;

// The symbols `|-`, `wff`, `p` and `q`.
const TURNSTILE: u32 = 0;
const WFF: u32 = 1;
const P: u32 = 2;
const Q: u32 = 3;

fn names() -> Arc<Nameset> {
    Arc::new(Nameset {
        names: vec![b"|-".to_vec(), b"wff".to_vec(), b"p".to_vec(), b"q".to_vec()],
    })
}

fn at(index: i32) -> StatementAddress {
    StatementAddress { segment_id: 0, index }
}

/// The symbols of an expression, as bytes with marked ends.
fn spell(text: &str) -> Vec<u8> {
    let mut out = Vec::new();
    for word in text.split_whitespace() {
        out.extend_from_slice(word.as_bytes());
        *out.last_mut().unwrap() |= 0x80;
    }
    out
}

/// An expression in the variables `p` and `q`, with its constants added to the pool.
fn expr(pool: &mut Vec<u8>, typecode: u32, text: &str) -> VerifyExpr {
    let mut tail = Vec::new();
    let mut start = pool.len();
    for word in text.split_whitespace() {
        if word == "p" || word == "q" {
            let var = if word == "p" { 0 } else { 1 };
            tail.push(ExprFragment { prefix: start..pool.len(), var });
            start = pool.len();
        } else {
            pool.extend_from_slice(&spell(word));
        }
    }
    VerifyExpr { typecode, rump: start..pool.len(), tail }
}

fn float(var: usize) -> Hyp {
    Hyp {
        address: at(var as i32),
        variable_index: Some(var),
        expr: VerifyExpr { typecode: WFF, rump: 0..0, tail: Vec::new() },
    }
}

/// The frame of a `$f` statement.
fn variable(atom: u32, name: &str, index: i32) -> Frame {
    Frame {
        stype: StatementType::Floating,
        valid: GlobalRange { start: at(index), end: NO_STATEMENT },
        target: VerifyExpr { typecode: WFF, rump: 0..0, tail: Vec::new() },
        stub_expr: spell(name),
        var_list: vec![atom],
        ..Frame::default()
    }
}

/// The frame of an assertion on `p` and `q` with the given `$e` hypotheses.
fn assertion(
    stype: StatementType,
    index: i32,
    essentials: &[(i32, &str)],
    typecode: u32,
    target: &str,
) -> Frame {
    let mut pool = Vec::new();
    let mut hypotheses = vec![float(0), float(1)];
    for &(place, text) in essentials {
        hypotheses.push(Hyp {
            address: at(place),
            variable_index: None,
            expr: expr(&mut pool, TURNSTILE, text),
        });
    }
    let target = expr(&mut pool, typecode, target);
    Frame {
        stype,
        valid: GlobalRange { start: at(index), end: NO_STATEMENT },
        hypotheses,
        target,
        const_pool: pool,
        var_list: vec![P, Q],
        mandatory_count: 2,
        ..Frame::default()
    }
}

fn statement(stype: StatementType, label: &str, proof: &str) -> Statement {
    Statement {
        stype,
        label: label.as_bytes().to_vec(),
        proof: proof.split_whitespace().map(|word| word.as_bytes().to_vec()).collect(),
    }
}

/// A segment with a theorem `th` that has the given proof.
fn segment(proof: &str) -> Segment {
    Segment {
        statements: vec![
            statement(StatementType::Floating, "wp", ""),
            statement(StatementType::Floating, "wq", ""),
            statement(StatementType::Axiom, "wi", ""),
            statement(StatementType::Axiom, "distinct", ""),
            statement(StatementType::Axiom, "mp", ""),
            statement(StatementType::Essential, "min", ""),
            statement(StatementType::Essential, "maj", ""),
            statement(StatementType::Provable, "th", proof),
            statement(StatementType::Axiom, "later", ""),
        ],
    }
}

/// The frames of the segment: modus ponens and its like, and a theorem that says `q` when
/// `p` and `( p -> q )` do.
/// More can be added to them.
fn open_frames(theorem: Frame) -> ScopeResult {
    let mut scopes = ScopeResult::new();
    scopes.insert(b"wp".to_vec(), 1, variable(P, "p", 0));
    scopes.insert(b"wq".to_vec(), 1, variable(Q, "q", 1));
    scopes.insert(
        b"wi".to_vec(),
        1,
        assertion(StatementType::Axiom, 2, &[], WFF, "( p -> q )"),
    );
    let mut distinct = assertion(StatementType::Axiom, 3, &[], TURNSTILE, "( p -> q )");
    distinct.mandatory_dv.push((0, 1));
    scopes.insert(b"distinct".to_vec(), 1, distinct);
    let hypotheses = [(5, "p"), (6, "( p -> q )")];
    scopes.insert(
        b"mp".to_vec(),
        1,
        assertion(StatementType::Axiom, 4, &hypotheses, TURNSTILE, "q"),
    );
    scopes.insert(b"th".to_vec(), 1, theorem);
    scopes.insert(
        b"later".to_vec(),
        1,
        assertion(StatementType::Axiom, 8, &[], TURNSTILE, "p"),
    );
    let mut closed = variable(P, "p", 0);
    closed.valid.end = 7;
    scopes.insert(b"closed".to_vec(), 1, closed);
    let mut open = variable(P, "p", 0);
    open.valid.end = 8;
    scopes.insert(b"open".to_vec(), 1, open);
    scopes
}

fn frames(theorem: Frame) -> Arc<ScopeResult> {
    Arc::new(open_frames(theorem))
}

fn theorem() -> Frame {
    let hypotheses = [(5, "p"), (6, "( p -> q )")];
    assertion(StatementType::Provable, 7, &hypotheses, TURNSTILE, "q")
}

fn database(segments: Vec<(u32, Arc<Segment>)>) -> Arc<SegmentSet> {
    Arc::new(SegmentSet {
        order: SegmentOrder { positions: vec![0, 1, 2, 3] },
        segments: segments
            .into_iter()
            .map(|(id, segment)| SegmentRef { id, segment })
            .collect(),
    })
}

fn check_with(scopes: &Arc<ScopeResult>, proof: &str) -> Option<Diagnostic> {
    let segments = database(vec![(0, Arc::new(segment(proof)))]);
    let nset = names();
    assert!(is_database_fit(&segments, &nset, scopes));
    let mut result = VerifyResult::default();
    verify(&mut result, &segments, &nset, scopes);
    let mut list = result.diagnostics();
    assert!(list.len() <= 1);
    list.pop().map(|(address, diagnostic)| {
        assert_eq!(address, at(7));
        diagnostic
    })
}

fn check(proof: &str) -> Option<Diagnostic> {
    check_with(&frames(theorem()), proof)
}

#[test]
fn normal_proof_is_accepted() {
    assert_eq!(check("wp wq min maj mp"), None);
}

#[test]
fn compressed_proof_is_accepted() {
    // the hypotheses are A to D, the roster goes on from E
    assert_eq!(check("( mp ) ABCDE"), None);
    assert_eq!(check("( mp ) AB C DE"), None);
}

#[test]
fn saved_step_is_used_again() {
    // E is modus ponens, F the saved step
    assert_eq!(check("( mp ) AZBCDE"), None);
    assert_eq!(check("( mp ) FABCDE"), Some(Diagnostic::StepOutOfRange));
    assert_eq!(check("( mp ) BZAFCDE"), Some(Diagnostic::ProofExcessEnd));
    assert_eq!(check("( mp ) BAZCDE"), Some(Diagnostic::StepEssenWrong));
    let mut own = theorem();
    let mut pool = Vec::new();
    own.target = expr(&mut pool, WFF, "( p -> p )");
    own.const_pool = pool;
    own.hypotheses.truncate(2);
    // C builds an implication, D is the saved step
    let scopes = frames(own);
    assert_eq!(check_with(&scopes, "( wi ) AZDC"), None);
    assert_eq!(check_with(&scopes, "( wi ) BZAC"), Some(Diagnostic::ProofWrongExprEnd));
}

#[test]
fn other_letters_are_skipped() {
    assert_eq!(check("( mp ) AaB.CD+E"), None);
    assert_eq!(check("( mp ) AxZBCDE"), None);
}

#[test]
fn composite_expressions_are_built() {
    let mut pool = Vec::new();
    let mut own = theorem();
    own.target = expr(&mut pool, WFF, "( p -> ( q -> p ) )");
    own.const_pool = pool;
    own.hypotheses.truncate(2);
    let scopes = frames(own);
    assert_eq!(check_with(&scopes, "wp wq wp wi wi"), None);
    assert_eq!(check_with(&scopes, "( wi ) ABACC"), None);
    assert_eq!(check_with(&scopes, "wp wq wi wp wi"), Some(Diagnostic::ProofWrongExprEnd));
}

#[test]
fn scope_ends_before_its_last_statement() {
    assert_eq!(check("open wq min maj mp"), None);
    assert_eq!(
        check("closed wq min maj mp"),
        Some(Diagnostic::StepUsedAfterScope(b"closed".to_vec()))
    );
}

#[test]
fn excess_end() {
    assert_eq!(check("wp wq"), Some(Diagnostic::ProofExcessEnd));
}

#[test]
fn no_steps() {
    assert_eq!(check(""), Some(Diagnostic::ProofNoSteps));
    assert_eq!(check("( )"), Some(Diagnostic::ProofNoSteps));
}

#[test]
fn dv_violation() {
    let statement = |left: &[usize], right: &[usize]| {
        let mut own = theorem();
        let mut pool = Vec::new();
        own.target = expr(&mut pool, TURNSTILE, "( p -> q )");
        own.const_pool = pool;
        own.hypotheses.truncate(2);
        for list in [left, right] {
            let mut set = Bitset::new();
            for &bit in list {
                set.set_bit(bit);
            }
            own.optional_dv.push(set);
        }
        frames(own)
    };
    assert_eq!(
        check_with(&statement(&[], &[]), "wp wq distinct"),
        Some(Diagnostic::ProofDvViolation)
    );
    // the declaration has to be there for the left variable
    assert_eq!(
        check_with(&statement(&[], &[0]), "wp wq distinct"),
        Some(Diagnostic::ProofDvViolation)
    );
    assert_eq!(check_with(&statement(&[1], &[]), "wp wq distinct"), None);
    // one variable is not distinct from itself
    assert_eq!(
        check_with(&statement(&[1], &[0]), "wp wp distinct"),
        Some(Diagnostic::ProofDvViolation)
    );
    // no declarations at all
    let mut own = theorem();
    own.hypotheses.truncate(2);
    assert_eq!(
        check_with(&frames(own), "wp wq distinct"),
        Some(Diagnostic::ProofDvViolation)
    );
}

#[test]
fn incomplete() {
    assert_eq!(check("?"), Some(Diagnostic::ProofIncomplete));
    assert_eq!(check("wp ?"), Some(Diagnostic::ProofIncomplete));
    assert_eq!(check("( mp ) A?"), Some(Diagnostic::ProofIncomplete));
}

#[test]
fn invalid_save() {
    assert_eq!(check("( mp ) Z"), Some(Diagnostic::ProofInvalidSave));
    assert_eq!(check("( mp ) AZZ"), Some(Diagnostic::ProofInvalidSave));
    assert_eq!(check("( mp ) AUZ"), Some(Diagnostic::ProofInvalidSave));
}

#[test]
fn malformed_numbers() {
    assert_eq!(check("( mp ) U"), Some(Diagnostic::ProofMalformedVarint));
    assert_eq!(check("( mp ) U?"), Some(Diagnostic::ProofMalformedVarint));
    assert_eq!(
        check("( mp ) YYYYYYYYYYYYYYYYYYYY"),
        Some(Diagnostic::ProofMalformedVarint)
    );
}

#[test]
fn number_limit() {
    // Twelve digits: the largest number below the limit of 214748363, and the limit.
    let letters = |number: usize| {
        let mut rest = number;
        let mut word = Vec::new();
        while rest > 0 {
            word.push(b'U' + ((rest - 1) % 5) as u8);
            rest = (rest - 1) / 5;
        }
        word.reverse();
        String::from_utf8(word).unwrap()
    };
    assert_eq!(
        check(&format!("( mp ) {}A", letters(214748362))),
        Some(Diagnostic::StepOutOfRange)
    );
    assert_eq!(
        check(&format!("( mp ) {}A", letters(214748363))),
        Some(Diagnostic::ProofMalformedVarint)
    );
}

#[test]
fn formats_agree() {
    // each label listed, and then used once
    for proof in ["wp wq min maj mp", "wp wq", "wp", "min", "wp wq wi", "wp wp wi"] {
        let count = proof.split_whitespace().count();
        let letters: String = (0..count).map(|i| (b'E' + i as u8) as char).collect();
        assert_eq!(check(&format!("( {} ) {}", proof, letters)), check(proof));
    }
}

#[test]
fn any_roster_will_do() {
    // modus ponens is the last of the list, and hypotheses may be listed or not
    assert_eq!(
        check("( later wi mp ) ABCDG"),
        Some(Diagnostic::StepUsedBeforeDefinition(b"later".to_vec()))
    );
    assert_eq!(check("( wi wp mp ) ABCDG"), None);
    assert_eq!(check("( maj wq mp wp min mp ) HFIEG"), None);
    assert_eq!(check("( mp mp ) ABCDF"), None);
}

#[test]
fn saved_steps_can_be_written_out() {
    let mut own = theorem();
    let mut pool = Vec::new();
    own.target = expr(&mut pool, WFF, "( ( p -> q ) -> ( p -> q ) )");
    own.const_pool = pool;
    own.hypotheses.truncate(2);
    let scopes = frames(own);
    assert_eq!(check_with(&scopes, "( wi ) ABCZDC"), None);
    assert_eq!(check_with(&scopes, "wp wq wi wp wq wi wi"), None);
    // the saved step is still the same after other steps
    assert_eq!(check_with(&scopes, "( wi ) ABCZABCDC"), Some(Diagnostic::ProofExcessEnd));
}

#[test]
fn breaks_between_letters_mean_nothing() {
    for letters in ["ABCDE", "A B C D E", "A1B2C3D4E5", "abA/BCD E-"] {
        assert_eq!(check(&format!("( mp ) {}", letters)), None);
    }
    for letters in ["UA", "U A", "U.A", "U aA"] {
        assert_eq!(check(&format!("( mp ) {}", letters)), Some(Diagnostic::StepOutOfRange));
    }
}

#[test]
fn variables_have_numbers_of_their_own() {
    // `r` and `s` are not in the list of the theorem
    let nset = Arc::new(Nameset {
        names: ["|-", "wff", "p", "q", "r", "s"]
            .iter()
            .map(|name| name.as_bytes().to_vec())
            .collect(),
    });
    let statement = |proof: &str, left: &str, right: &str| {
        let mut own = theorem();
        own.hypotheses.truncate(2);
        for bits in [[1], [0]] {
            let mut set = Bitset::new();
            set.set_bit(bits[0]);
            own.optional_dv.push(set);
        }
        let mut scopes = open_frames(own);
        scopes.insert(left.as_bytes().to_vec(), 1, variable(4, "r", 0));
        scopes.insert(right.as_bytes().to_vec(), 1, variable(5, "s", 0));
        let segments = database(vec![(0, Arc::new(segment(proof)))]);
        let mut result = VerifyResult::default();
        verify(&mut result, &segments, &nset, &Arc::new(scopes));
        result.diagnostics().pop().map(|(_, diagnostic)| diagnostic)
    };
    assert_eq!(statement("wr ws distinct", "wr", "ws"), Some(Diagnostic::ProofDvViolation));
    assert_eq!(statement("wp wr distinct", "wr", "ws"), Some(Diagnostic::ProofDvViolation));
    assert_eq!(statement("wp wq distinct", "wr", "ws"), Some(Diagnostic::ProofWrongExprEnd));
}

#[test]
fn variables_of_composite_expressions() {
    let statement = |distinct: &[(usize, usize)]| {
        let mut own = theorem();
        let mut pool = Vec::new();
        own.target = expr(&mut pool, TURNSTILE, "( ( p -> p ) -> ( q -> q ) )");
        own.const_pool = pool;
        own.hypotheses.truncate(2);
        for var in 0..2 {
            let mut set = Bitset::new();
            for &(left, right) in distinct {
                if left == var {
                    set.set_bit(right);
                }
            }
            own.optional_dv.push(set);
        }
        frames(own)
    };
    let proof = "wp wp wi wq wq wi distinct";
    assert_eq!(check_with(&statement(&[(0, 1), (1, 0)]), proof), None);
    assert_eq!(check_with(&statement(&[(1, 0)]), proof), Some(Diagnostic::ProofDvViolation));
    // `q` occurs on both sides
    let proof = "wp wq wi wq wq wi distinct";
    assert_eq!(
        check_with(&statement(&[(0, 1), (1, 0)]), proof),
        Some(Diagnostic::ProofDvViolation)
    );
}

#[test]
fn numbers_past_twenty() {
    // sixteen more labels make the first of them number 4 and the last number 19
    let roster = "wp ".repeat(16) + "wq mp";
    // UA is number 20, UB number 21
    assert_eq!(check(&format!("( {} ) AUACDUB", roster)), None);
    assert_eq!(check(&format!("( {} ) TUACDUB", roster)), None);
    assert_eq!(check(&format!("( {} ) AUACDUC", roster)), Some(Diagnostic::StepOutOfRange));
}

#[test]
fn underflow() {
    assert_eq!(check("min maj mp"), Some(Diagnostic::ProofUnderflow));
}

#[test]
fn unterminated_roster() {
    assert_eq!(check("("), Some(Diagnostic::ProofUnterminatedRoster));
    assert_eq!(check("( mp"), Some(Diagnostic::ProofUnterminatedRoster));
    assert_eq!(check("( nothing"), Some(Diagnostic::StepMissing(b"nothing".to_vec())));
}

#[test]
fn wrong_end() {
    assert_eq!(check("wp"), Some(Diagnostic::ProofWrongTypeEnd));
    assert_eq!(check("min"), Some(Diagnostic::ProofWrongExprEnd));
}

#[test]
fn wrong_hypotheses() {
    assert_eq!(check("wp min min maj mp"), Some(Diagnostic::StepFloatWrongType));
    assert_eq!(check("wp wq wp maj mp"), Some(Diagnostic::StepEssenWrongType));
    assert_eq!(check("wq wq min maj mp"), Some(Diagnostic::StepEssenWrong));
}

#[test]
fn step_missing() {
    assert_eq!(check("nothing"), Some(Diagnostic::StepMissing(b"nothing".to_vec())));
}

#[test]
fn step_out_of_range() {
    assert_eq!(check("( mp ) F"), Some(Diagnostic::StepOutOfRange));
}

#[test]
fn step_used_before_definition() {
    assert_eq!(
        check("later"),
        Some(Diagnostic::StepUsedBeforeDefinition(b"later".to_vec()))
    );
    // a theorem does not prove itself
    assert_eq!(
        check("wp wq min maj th"),
        Some(Diagnostic::StepUsedBeforeDefinition(b"th".to_vec()))
    );
}

#[test]
fn statement_without_frame_is_not_checked() {
    let segments = database(vec![(
        0,
        Arc::new(Segment {
            statements: vec![
                statement(StatementType::Provable, "unknown", "nonsense"),
                statement(StatementType::Axiom, "th", "nonsense"),
            ],
        }),
    )]);
    let mut result = VerifyResult::default();
    verify(&mut result, &segments, &names(), &frames(theorem()));
    assert!(result.diagnostics().is_empty());
}

#[test]
fn diagnostics_of_several_segments() {
    let two = Segment {
        statements: vec![
            statement(StatementType::Provable, "th", "?"),
            statement(StatementType::Comment, "", ""),
            statement(StatementType::Provable, "th", "wp"),
        ],
    };
    let segments = database(vec![(2, Arc::new(two)), (0, Arc::new(segment("wp wq")))]);
    let mut result = VerifyResult::default();
    verify(&mut result, &segments, &names(), &frames(theorem()));
    let mut list = result.diagnostics();
    list.sort_by_key(|(address, _)| (address.segment_id, address.index));
    let place = |segment_id: u32, index: i32| StatementAddress { segment_id, index };
    assert_eq!(
        list,
        vec![
            (place(0, 7), Diagnostic::ProofExcessEnd),
            (place(2, 0), Diagnostic::ProofIncomplete),
            (place(2, 2), Diagnostic::ProofWrongTypeEnd),
        ]
    );
    let copy = result.clone();
    assert_eq!(copy.diagnostics().len(), 3);
}

#[test]
fn outcomes_are_kept() {
    let nset = names();
    let scopes = frames(theorem());
    let shared = Arc::new(segment("wp wq"));
    let segments = database(vec![(0, shared.clone())]);
    let mut result = VerifyResult::default();
    verify(&mut result, &segments, &nset, &scopes);
    let first = result.segment(0).unwrap().clone();
    assert!(first.is_current(&scopes) && first.is_of(&segments.segments[0]));
    assert!(!first.is_current(&ScopeResult::new()));

    // nothing changed
    verify(&mut result, &segments, &nset, &scopes);
    assert!(Arc::ptr_eq(&first, result.segment(0).unwrap()));

    // a frame that is not looked up changed
    let mut other = open_frames(theorem());
    other.insert(b"mp".to_vec(), 2, Frame::default());
    verify(&mut result, &segments, &nset, &Arc::new(other));
    assert!(Arc::ptr_eq(&first, result.segment(0).unwrap()));

    // an equal segment in another place
    let moved = database(vec![(0, Arc::new(segment("wp wq")))]);
    verify(&mut result, &moved, &nset, &scopes);
    assert!(!Arc::ptr_eq(&first, result.segment(0).unwrap()));
    assert_eq!(result.diagnostics(), vec![(at(7), Diagnostic::ProofExcessEnd)]);

    // the segment is gone
    verify(&mut result, &database(Vec::new()), &nset, &scopes);
    assert!(result.segment(0).is_none());
    assert!(result.diagnostics().is_empty());
}

#[test]
fn changed_frames_are_noticed() {
    let nset = names();
    let segments = database(vec![(0, Arc::new(segment("wp wq min maj mp")))]);
    let mut result = VerifyResult::default();
    verify(&mut result, &segments, &nset, &frames(theorem()));
    assert!(result.diagnostics().is_empty());

    // the axiom now says something else
    let mut changed = open_frames(theorem());
    let hypotheses = [(5, "p"), (6, "( p -> q )")];
    changed.insert(
        b"mp".to_vec(),
        2,
        assertion(StatementType::Axiom, 4, &hypotheses, TURNSTILE, "p"),
    );
    verify(&mut result, &segments, &nset, &Arc::new(changed));
    assert_eq!(result.diagnostics(), vec![(at(7), Diagnostic::ProofWrongExprEnd)]);
}

#[test]
fn labels_that_appear_are_noticed() {
    let nset = names();
    let segments = database(vec![(0, Arc::new(segment("wr wq min maj mp")))]);
    let mut result = VerifyResult::default();
    verify(&mut result, &segments, &nset, &frames(theorem()));
    assert_eq!(
        result.diagnostics(),
        vec![(at(7), Diagnostic::StepMissing(b"wr".to_vec()))]
    );
    let mut more = open_frames(theorem());
    more.insert(b"wr".to_vec(), 2, variable(P, "p", 0));
    verify(&mut result, &segments, &nset, &Arc::new(more));
    assert!(result.diagnostics().is_empty());
}

#[test]
fn unfit_databases_are_told() {
    let nset = names();
    let scopes = frames(theorem());
    let segments = database(vec![(0, Arc::new(segment("wp")))]);
    assert!(is_database_fit(&segments, &nset, &scopes));
    // two segments with one id
    let twice = database(vec![(0, Arc::new(segment("wp"))), (0, Arc::new(segment("wp")))]);
    assert!(!is_database_fit(&twice, &nset, &scopes));
    // a hypothesis on a variable without a type
    let mut unbound = assertion(StatementType::Axiom, 2, &[(5, "p")], TURNSTILE, "q");
    unbound.hypotheses.remove(0);
    let mut bad = open_frames(theorem());
    bad.insert(b"unbound".to_vec(), 1, unbound);
    assert!(!is_database_fit(&segments, &nset, &bad));
    // a variable without a name
    let nameless = Nameset { names: vec![b"|-".to_vec(), b"wff".to_vec(), b"p".to_vec()] };
    assert!(!is_database_fit(&segments, &nameless, &scopes));
    // a frame in a segment that has no place
    let mut lost = open_frames(theorem());
    let mut elsewhere = variable(P, "p", 0);
    elsewhere.valid.start.segment_id = 9;
    lost.insert(b"lost".to_vec(), 1, elsewhere);
    assert!(!is_database_fit(&segments, &nset, &lost));
}

#[test]
fn unsound_databases_are_told() {
    let nset = names();
    let segments = database(vec![(0, Arc::new(segment("wp")))]);
    let sound = |own: Frame| {
        let scopes = frames(own);
        let whole = is_database_sound(&segments, &nset, &scopes);
        let own = scopes.frame(b"th").unwrap();
        assert_eq!(is_setting_sound(&segments, &nset, &scopes, &segments.segments[0], own), whole);
        assert!(is_database_fit(&segments, &nset, &scopes));
        whole
    };
    assert!(sound(theorem()));
    // a variable is listed twice
    let mut twice = theorem();
    twice.var_list.push(P);
    assert!(!sound(twice));
    // a variable has two types
    let mut typed = theorem();
    typed.hypotheses.insert(2, float(1));
    assert!(!sound(typed));
    // distinctness of a variable that is not listed
    for (place, bit) in [(0, 1), (0, 2), (2, 0)] {
        let mut own = theorem();
        for var in 0..=place {
            let mut set = Bitset::new();
            if var == place {
                set.set_bit(bit);
            }
            own.optional_dv.push(set);
        }
        assert_eq!(sound(own), place < 2 && bit < 2);
    }
    // an unfit database is not sound either
    let lost = database(vec![(0, Arc::new(segment("wp"))), (0, Arc::new(segment("wp")))]);
    assert!(!is_database_sound(&lost, &nset, &frames(theorem())));
    assert!(is_database_sound(&database(Vec::new()), &nset, &frames(theorem())));
}

#[test]
fn proofs_do_not_depend_on_each_other() {
    let check_pair = |first: &str, second: &str| {
        let pair = Segment {
            statements: vec![
                statement(StatementType::Provable, "th", first),
                statement(StatementType::Provable, "th", second),
            ],
        };
        let segments = database(vec![(0, Arc::new(pair))]);
        let mut result = VerifyResult::default();
        verify(&mut result, &segments, &names(), &frames(theorem()));
        result.diagnostics()
    };
    for other in ["wp", "?", "wp wq wi", "( mp ) AZ", "nothing"] {
        assert_eq!(check_pair(other, "wp wq")[1], (at(1), Diagnostic::ProofExcessEnd));
        assert_eq!(check_pair("wp wq", other)[0], (at(0), Diagnostic::ProofExcessEnd));
    }
}

#[test]
fn checking_again_changes_nothing() {
    let two = Segment {
        statements: vec![
            statement(StatementType::Provable, "th", "?"),
            statement(StatementType::Provable, "th", "wp"),
        ],
    };
    let segments = database(vec![(2, Arc::new(two)), (0, Arc::new(segment("wp wq")))]);
    let (nset, scopes) = (names(), frames(theorem()));
    let mut result = VerifyResult::default();
    verify(&mut result, &segments, &nset, &scopes);
    let sorted = |result: &VerifyResult| {
        let mut list = result.diagnostics();
        list.sort_by_key(|(address, _)| (address.segment_id, address.index));
        list
    };
    let first = sorted(&result);
    verify(&mut result, &segments, &nset, &scopes);
    assert_eq!(sorted(&result), first);
    assert_eq!(first.len(), 3);
}

#[test]
fn assumed_statement_is_proved() {
    let hypotheses = [(5, "( p -> q )")];
    let own = assertion(StatementType::Provable, 7, &hypotheses, TURNSTILE, "( p -> q )");
    let scopes = frames(own);
    assert_eq!(check_with(&scopes, "min"), None);
    assert_eq!(check_with(&scopes, "( ) C"), None);
    let other = assertion(StatementType::Provable, 7, &hypotheses, WFF, "( p -> q )");
    assert_eq!(check_with(&frames(other), "min"), Some(Diagnostic::ProofWrongTypeEnd));
}

#[test]
fn lists_with_refused_labels() {
    let missing = Some(Diagnostic::StepMissing(b"nothing".to_vec()));
    assert_eq!(check("wp nothing"), missing);
    assert_eq!(check("( wp nothing ) EF"), missing);
    // both are refused, if for different reasons
    assert_eq!(check("mp nothing"), Some(Diagnostic::ProofUnderflow));
    assert_eq!(check("( mp nothing ) EF"), missing);
}
