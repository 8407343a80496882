use endo::base::{to_base_vec, to_u8_vec, Base};
use endo::exec::{execute, ExecutionState, Pattern, PatternItem};

#[test]
fn test_patterns() {
    assert_eq!(
        ExecutionState::new(b"", b"CIIC").pattern(),
        Ok(Pattern(vec![PatternItem::Base(Base::I)]))
    );
    assert_eq!(
        ExecutionState::new(b"", b"IIPIPICPIICICIIF").pattern(),
        Ok(Pattern(vec![
            PatternItem::GroupOpen,
            PatternItem::Skip(2),
            PatternItem::GroupClose,
            PatternItem::Base(Base::P)
        ])),
    );
    assert_eq!(
        ExecutionState::new(b"", b"IIPIPICPIICIFCCFPICIIF").pattern(),
        Ok(Pattern(vec![
            PatternItem::GroupOpen,
            PatternItem::Skip(2),
            PatternItem::GroupClose,
            PatternItem::Search(vec![Base::I, Base::C, Base::F, Base::P])
        ])),
    );
}

#[test]
fn test_execute() {
    let mut state = ExecutionState::new(b"", b"IIPIPICPIICICIIFICCIFPPIICCFPC");
    let pattern = state.pattern().unwrap();
    let template = state.template().unwrap();
    state.match_replace(pattern, template);
    assert_eq!(
        state.dna.render(&state.dna.slice(0..state.dna.len())),
        to_base_vec(b"PICFC")
    );
    state = ExecutionState::new(b"", b"IIPIPICPIICICIIFICCIFCCCPPIICCFPC");
    let pattern = state.pattern().unwrap();
    let template = state.template().unwrap();
    state.match_replace(pattern, template);
    assert_eq!(
        state.dna.render(&state.dna.slice(0..state.dna.len())),
        to_base_vec(b"PIICCFCFFPC")
    );
    state = ExecutionState::new(b"", b"IIPIPIICPIICIICCIICFCFC");
    let pattern = state.pattern().unwrap();
    let template = state.template().unwrap();
    state.match_replace(pattern, template);
    assert_eq!(
        state.dna.render(&state.dna.slice(0..state.dna.len())),
        to_base_vec(b"I")
    );
    // Find "FF" and replace with nothing
    state = ExecutionState::new(b"", b"IFCPPIICIICPFF");
    let pattern = state.pattern().unwrap();
    let template = state.template().unwrap();
    state.match_replace(pattern, template);
    assert_eq!(state.dna.len(), 0);
}

#[test]
fn test_execute_emits_rna() {
    // a triple-I escape forwards the next seven bases verbatim
    let rna = execute(b"", b"IIIPIPIIICIICIIC");
    assert_eq!(rna, to_base_vec(b"PIPIIIC"));
}

#[test]
fn test_execute_empty() {
    let rna = execute(b"", b"");
    assert_eq!(rna.len(), 0);
}

#[test]
fn test_execute_emit_short_remainder() {
    // fewer than seven bases remain: they drain to the stream and the
    // run finishes early
    let rna = execute(b"", b"IIIPIC");
    assert_eq!(rna, to_base_vec(b"PIC"));
}

#[test]
fn test_read_nat() {
    let mut state = ExecutionState::new(b"", b"CICP");
    assert_eq!(state.read_nat(), Ok(5));
    assert_eq!(state.dna.len(), 0);
    let mut state = ExecutionState::new(b"", b"P");
    assert_eq!(state.read_nat(), Ok(0));
    let mut state = ExecutionState::new(b"", b"CCIC");
    assert!(state.read_nat().is_err());
}

#[test]
fn test_as_nat() {
    assert_eq!(ExecutionState::as_nat(0), to_base_vec(b"P"));
    assert_eq!(ExecutionState::as_nat(5), to_base_vec(b"CICP"));
    assert_eq!(ExecutionState::as_nat(4), to_base_vec(b"IICP"));
}

#[test]
fn test_as_nat_round_trips() {
    for n in [0u32, 1, 2, 3, 7, 8, 255, 256, 12345, 1 << 20] {
        let encoded = to_u8_vec(&ExecutionState::as_nat(n));
        let mut state = ExecutionState::new(b"", &encoded);
        assert_eq!(state.read_nat(), Ok(n));
        assert_eq!(state.dna.len(), 0);
    }
}

#[test]
fn test_consts() {
    // C -> I, F -> C, P -> F, IC -> P; a lone I ends the run
    let mut state = ExecutionState::new(b"", b"CFPICIF");
    assert_eq!(state.consts(), to_base_vec(b"ICFP"));
    assert_eq!(state.dna.len(), 2);
}

#[test]
fn test_quote_protect() {
    let v = to_base_vec(b"ICFP");
    assert_eq!(ExecutionState::quote(&v), to_base_vec(b"CFPIC"));
    assert_eq!(ExecutionState::protect(1, v.clone()), to_base_vec(b"CFPIC"));
    assert_eq!(ExecutionState::protect(2, v), to_base_vec(b"FPICCF"));
}

#[test]
fn test_base_codec() {
    let bases = to_base_vec(b"ICFP");
    assert_eq!(bases, vec![Base::I, Base::C, Base::F, Base::P]);
    assert_eq!(to_u8_vec(&bases), b"ICFP".to_vec());
}
