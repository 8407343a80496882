use endo::base::to_base_vec;
use endo::dna::{DNAChunk, DNA};

fn contents(d: &DNA) -> Vec<endo::Base> {
    d.render(&d.slice(0..d.len()))
}

#[test]
fn test_new_and_len() {
    let d = DNA::new(&[to_base_vec(b"IC"), to_base_vec(b"FP")]);
    assert_eq!(d.len(), 4);
    assert!(!d.is_empty());
    assert_eq!(contents(&d), to_base_vec(b"ICFP"));
    let e = DNA::new(&[]);
    assert_eq!(e.len(), 0);
    assert!(e.is_empty());
}

#[test]
fn test_index_and_pop_front() {
    let mut d = DNA::new(&[to_base_vec(b"ICFP")]);
    assert_eq!(d.index(0), endo::Base::I);
    assert_eq!(d.index(3), endo::Base::P);
    assert_eq!(d.pop_front(), Some(endo::Base::I));
    assert_eq!(d.pop_front(), Some(endo::Base::C));
    assert_eq!(d.len(), 2);
    assert_eq!(contents(&d), to_base_vec(b"FP"));
    assert_eq!(d.pop_front(), Some(endo::Base::F));
    assert_eq!(d.pop_front(), Some(endo::Base::P));
    assert_eq!(d.pop_front(), None);
}

#[test]
fn test_truncate_front() {
    let mut d = DNA::new(&[to_base_vec(b"ICFPIC")]);
    d.truncate_front(2);
    assert_eq!(contents(&d), to_base_vec(b"FPIC"));
    d.truncate_front(0);
    assert_eq!(contents(&d), to_base_vec(b"FPIC"));
    d.truncate_front(4);
    assert_eq!(d.len(), 0);
}

#[test]
fn test_slice_survives_edits() {
    // a snapshot references the append-only storage, so it stays
    // valid while the live view is truncated and extended
    let mut d = DNA::new(&[to_base_vec(b"ICFPICFP")]);
    let captured = d.slice(2..6);
    assert_eq!(captured.len(), 4);
    assert_eq!(d.render(&captured), to_base_vec(b"FPIC"));
    d.truncate_front(5);
    assert_eq!(d.render(&captured), to_base_vec(b"FPIC"));
    d.extend_front(vec![DNAChunk::Owned(to_base_vec(b"PPP"))]);
    assert_eq!(d.render(&captured), to_base_vec(b"FPIC"));
    assert_eq!(contents(&d), to_base_vec(b"PPPCFP"));
}

#[test]
fn test_extend_front_mixed_chunks() {
    let mut d = DNA::new(&[to_base_vec(b"ICFP")]);
    let captured = d.slice(1..3);
    d.extend_front(vec![
        DNAChunk::Owned(to_base_vec(b"PP")),
        DNAChunk::Slice(captured),
        DNAChunk::Owned(to_base_vec(b"I")),
    ]);
    assert_eq!(contents(&d), to_base_vec(b"PPCFIICFP"));
}

#[test]
fn test_window_scan() {
    let d = DNA::new(&[to_base_vec(b"ICFPICFP")]);
    let needle = to_base_vec(b"PI");
    let mut w = d.window(0, 2);
    let mut found = None;
    loop {
        if w.is_match(&needle) {
            found = Some(w.offset());
            break;
        }
        if !w.next(&d) {
            break;
        }
    }
    assert_eq!(found, Some(3));
}
