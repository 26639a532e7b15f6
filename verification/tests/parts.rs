use metamath_verify::bit_set::Bitset;
use metamath_verify::diag::Diagnostic;
use metamath_verify::nameck::Nameset;
use metamath_verify::parser::{SegmentOrder, StatementAddress};
use metamath_verify::scopeck::{ExprFragment, Frame, ScopeReader, ScopeResult, VerifyExpr};
use metamath_verify::substitute::{
    do_substitute, do_substitute_eq, do_substitute_raw, do_substitute_vars, push_symbol,
};
use metamath_verify::util::{copy_portion, copy_token, fast_extend, is_less, same_bytes};

fn set(bits: &[usize]) -> Bitset {
    let mut set = Bitset::new();
    for &bit in bits {
        set.set_bit(bit);
    }
    set
}

#[test]
fn bitset_members() {
    let bits = set(&[130, 0, 63, 64, 0]);
    assert_eq!(bits.members(), vec![0, 63, 64, 130]);
    assert!(bits.has_bit(63) && !bits.has_bit(62) && !bits.has_bit(100000));
    assert!(Bitset::new().members().is_empty());
}

#[test]
fn bitset_union() {
    let mut bits = set(&[1, 200]);
    bits.union_with(&set(&[2, 64]));
    assert_eq!(bits.members(), vec![1, 2, 64, 200]);
    let mut small = set(&[3]);
    small.union_with(&bits);
    assert_eq!(small.members(), vec![1, 2, 3, 64, 200]);
    assert_eq!(small.clone().members(), small.members());
}

#[test]
fn byte_strings() {
    let mut bytes = b"abc".to_vec();
    fast_extend(&mut bytes, b"de");
    copy_portion(&mut bytes, 1, 4);
    assert_eq!(bytes, b"abcdebcd".to_vec());
    assert_eq!(copy_token(b"xyz"), b"xyz".to_vec());
    assert!(same_bytes(b"ab", b"ab") && !same_bytes(b"ab", b"abc") && !same_bytes(b"ab", b"ac"));
    assert!(is_less(b"", b"a") && is_less(b"a", b"ab") && is_less(b"ab", b"b"));
    assert!(!is_less(b"a", b"a") && !is_less(b"b", b"ab") && !is_less(b"a", b""));
}

#[test]
fn order_of_statements() {
    let order = SegmentOrder { positions: vec![5, 2] };
    let place = |segment_id: u32, index: i32| StatementAddress { segment_id, index };
    assert!(order.precedes(place(1, 9), place(0, 0)));
    assert!(!order.precedes(place(0, 0), place(1, 9)));
    assert!(order.precedes(place(0, 0), place(0, 1)));
    assert!(!order.precedes(place(0, 1), place(0, 1)));
}

/// `<0>x+<1>` with the constants `<`, `x`, ... written as single bytes.
fn sample() -> (Frame, VerifyExpr) {
    let frame = Frame {
        const_pool: b"[x+]".to_vec(),
        var_list: vec![1, 0],
        ..Frame::default()
    };
    let expr = VerifyExpr {
        typecode: 0,
        rump: 3..4,
        tail: vec![
            ExprFragment { prefix: 0..1, var: 0 },
            ExprFragment { prefix: 1..3, var: 1 },
        ],
    };
    (frame, expr)
}

#[test]
fn substitution() {
    let (frame, expr) = sample();
    let vars = vec![(0..2, set(&[4])), (2..5, set(&[5, 6]))];
    let mut target = b"abcde".to_vec();
    do_substitute(&mut target, &frame, &expr, &vars);
    assert_eq!(target, b"abcde[abx+cde]".to_vec());
    assert_eq!(do_substitute_vars(&expr.tail, &vars).members(), vec![4, 5, 6]);
    assert!(do_substitute_vars(&[], &vars).members().is_empty());
}

#[test]
fn substitution_compared() {
    let (frame, expr) = sample();
    let vars = vec![(0..2, Bitset::new()), (2..5, Bitset::new())];
    let equal = |text: &[u8]| do_substitute_eq(text, &frame, &expr, &vars, b"abcde");
    assert!(equal(b"[abx+cde]"));
    assert!(!equal(b"[abx+cde"));
    assert!(!equal(b"[abx+cde]]"));
    assert!(!equal(b"[abx-cde]"));
    assert!(!equal(b"[acx+cde]"));
    assert!(!equal(b""));
}

#[test]
fn substitution_of_names() {
    let (frame, expr) = sample();
    let nset = Nameset { names: vec![b"q".to_vec(), b"ph".to_vec()] };
    let mut target = b"-".to_vec();
    do_substitute_raw(&mut target, &frame, &expr, &nset);
    let mut expected = b"-[p".to_vec();
    expected.push(b'h' | 0x80);
    expected.extend_from_slice(b"x+");
    expected.push(b'q' | 0x80);
    expected.push(b']');
    assert_eq!(target, expected);
}

#[test]
fn symbols_have_marked_ends() {
    let spell = |symbols: &[&str]| {
        let mut out = Vec::new();
        for symbol in symbols {
            push_symbol(&mut out, symbol.as_bytes());
        }
        out
    };
    assert_eq!(spell(&["ab", "c"]), vec![b'a', b'b' | 0x80, b'c' | 0x80]);
    assert_ne!(spell(&["ab", "c"]), spell(&["a", "bc"]));
    assert_eq!([spell(&["ab"]), spell(&["c"])].concat(), spell(&["ab", "c"]));
}

fn frame_with(mandatory_count: usize) -> Frame {
    Frame { mandatory_count, ..Frame::default() }
}

#[test]
fn frames_by_label() {
    let mut scopes = ScopeResult::new();
    for (i, label) in ["b", "d", "a", "c", "ab"].iter().enumerate() {
        scopes.insert(label.as_bytes().to_vec(), 1, frame_with(i));
    }
    scopes.insert(b"d".to_vec(), 2, frame_with(9));
    assert_eq!(scopes.len(), 5);
    assert_eq!(scopes.frame(b"b").unwrap().mandatory_count, 0);
    assert_eq!(scopes.frame(b"d").unwrap().mandatory_count, 9);
    assert_eq!(scopes.frame(b"ab").unwrap().mandatory_count, 4);
    assert!(scopes.frame(b"").is_none() && scopes.frame(b"e").is_none());
    assert_eq!(scopes.frame_at(1).mandatory_count, 4);
}

#[test]
fn usage_of_labels() {
    let mut scopes = ScopeResult::new();
    scopes.insert(b"a".to_vec(), 1, frame_with(1));
    scopes.insert(b"b".to_vec(), 1, frame_with(2));
    let mut reader = ScopeReader::new(&scopes);
    assert_eq!(reader.get(b"a").unwrap().mandatory_count, 1);
    assert!(reader.get(b"x").is_none());
    let usage = reader.into_usage();
    assert!(usage.valid(&scopes));
    scopes.insert(b"b".to_vec(), 2, frame_with(3));
    assert!(usage.valid(&scopes));
    scopes.insert(b"x".to_vec(), 2, frame_with(4));
    assert!(!usage.valid(&scopes));
    let mut other = ScopeResult::new();
    other.insert(b"a".to_vec(), 2, frame_with(1));
    assert!(!usage.valid(&other));
    assert!(!usage.valid(&ScopeResult::new()));
}

#[test]
fn diagnostics_can_be_copied() {
    let list = vec![
        Diagnostic::ProofExcessEnd,
        Diagnostic::ProofDvViolation,
        Diagnostic::ProofIncomplete,
        Diagnostic::ProofInvalidSave,
        Diagnostic::ProofMalformedVarint,
        Diagnostic::ProofNoSteps,
        Diagnostic::ProofUnderflow,
        Diagnostic::ProofUnterminatedRoster,
        Diagnostic::ProofWrongExprEnd,
        Diagnostic::ProofWrongTypeEnd,
        Diagnostic::StepEssenWrong,
        Diagnostic::StepEssenWrongType,
        Diagnostic::StepFloatWrongType,
        Diagnostic::StepMissing(b"a".to_vec()),
        Diagnostic::StepOutOfRange,
        Diagnostic::StepUsedAfterScope(b"b".to_vec()),
        Diagnostic::StepUsedBeforeDefinition(b"c".to_vec()),
    ];
    for diagnostic in &list {
        assert_eq!(&diagnostic.clone(), diagnostic);
    }
}
