use hmm::corpus::{
    parse, Base, Codon, Label, LabelClass, LabeledRange, Labeler, Sequence,
};
use hmm::train::SparseMap;

#[test]
fn sequence_from() {
    assert_eq!(
        "1\t2800\t[190, 255] [337, 2799]".parse::<Sequence>(),
        Ok(Sequence { start: 0, end: 2800, genes: vec![(189, 255), (336, 2799)] })
    )
}

#[test]
fn from() {
    assert_eq!(
        "1\t2800\t[190, 255] [337, 2799]".parse::<Sequence>(),
        Ok(Sequence { start: 0, end: 2800, genes: vec![(189, 255), (336, 2799)] })
    )
}

#[test]
fn sequence_label_dna() {
    assert_eq!(
        Sequence { start: 0, end: 14, genes: vec![(1, 13)] }.label_dna(&[
            Base::A,
            Base::A,
            Base::T,
            Base::G,
            Base::A,
            Base::A,
            Base::A,
            Base::C,
            Base::C,
            Base::C,
            Base::T,
            Base::G,
            Base::A,
            Base::T
        ]),
        vec![
            (Label::NonCoding, Base::A),
            (Label::StartCodon1, Base::A),
            (Label::StartCodon2, Base::T),
            (Label::StartCodon3, Base::G),
            (Label::InternalCodon1(0), Base::A),
            (Label::InternalCodon2(0), Base::A),
            (Label::InternalCodon3(0), Base::A),
            (Label::InternalCodon1(1), Base::C),
            (Label::InternalCodon2(1), Base::C),
            (Label::InternalCodon3(1), Base::C),
            (Label::StopCodon1(0), Base::T),
            (Label::StopCodon2(0), Base::G),
            (Label::StopCodon3(0), Base::A),
            (Label::NonCoding, Base::T)
        ]
    )
}

#[test]
fn label_dna() {
    assert_eq!(
        Sequence { start: 0, end: 14, genes: vec![(1, 13)] }.label_dna(&[
            Base::A,
            Base::A,
            Base::T,
            Base::G,
            Base::A,
            Base::A,
            Base::A,
            Base::C,
            Base::C,
            Base::C,
            Base::T,
            Base::G,
            Base::A,
            Base::T
        ]),
        vec![
            (Label::NonCoding, Base::A),
            (Label::StartCodon1, Base::A),
            (Label::StartCodon2, Base::T),
            (Label::StartCodon3, Base::G),
            (Label::InternalCodon1(0), Base::A),
            (Label::InternalCodon2(0), Base::A),
            (Label::InternalCodon3(0), Base::A),
            (Label::InternalCodon1(1), Base::C),
            (Label::InternalCodon2(1), Base::C),
            (Label::InternalCodon3(1), Base::C),
            (Label::StopCodon1(0), Base::T),
            (Label::StopCodon2(0), Base::G),
            (Label::StopCodon3(0), Base::A),
            (Label::NonCoding, Base::T)
        ]
    )
}

#[test]
fn corpus_labeler_internal_codons() {
    let mut unique_checker = SparseMap::new();
    unique_checker.insert(Codon(Base::A, Base::C, Base::C), 0);
    assert_eq!(
        Labeler::internal_codons(
            &[Base::A, Base::C, Base::C, Base::A, Base::A, Base::A],
            &mut unique_checker
        ),
        vec![
            (Label::InternalCodon1(0), Base::A),
            (Label::InternalCodon2(0), Base::C),
            (Label::InternalCodon3(0), Base::C),
            (Label::InternalCodon1(1), Base::A),
            (Label::InternalCodon2(1), Base::A),
            (Label::InternalCodon3(1), Base::A)
        ]
    );
}

#[test]
fn labeler_labeler_internal_codons() {
    let mut unique_checker = SparseMap::new();
    unique_checker.insert(Codon(Base::A, Base::C, Base::C), 0);
    assert_eq!(
        Labeler::internal_codons(
            &[Base::A, Base::C, Base::C, Base::A, Base::A, Base::A],
            &mut unique_checker
        ),
        vec![
            (Label::InternalCodon1(0), Base::A),
            (Label::InternalCodon2(0), Base::C),
            (Label::InternalCodon3(0), Base::C),
            (Label::InternalCodon1(1), Base::A),
            (Label::InternalCodon2(1), Base::A),
            (Label::InternalCodon3(1), Base::A)
        ]
    );
}

fn ranges_fixture() -> Sequence {
    Sequence { start: 0, end: 1000, genes: vec![(100, 200), (600, 700)] }
}

#[test]
fn sequence_labeled_ranges() {
    assert_eq!(
        ranges_fixture().labeled_ranges(),
        vec![
            LabeledRange { class: LabelClass::NonCoding, range: (0, 100) },
            LabeledRange { class: LabelClass::StartCodon, range: (100, 103) },
            LabeledRange { class: LabelClass::InternalCodon, range: (103, 197) },
            LabeledRange { class: LabelClass::StopCodon, range: (197, 200) },
            LabeledRange { class: LabelClass::NonCoding, range: (200, 600) },
            LabeledRange { class: LabelClass::StartCodon, range: (600, 603) },
            LabeledRange { class: LabelClass::InternalCodon, range: (603, 697) },
            LabeledRange { class: LabelClass::StopCodon, range: (697, 700) },
            LabeledRange { class: LabelClass::NonCoding, range: (700, 1000) }
        ]
    );
}

#[test]
fn labeled_ranges() {
    assert_eq!(
        ranges_fixture().labeled_ranges(),
        vec![
            LabeledRange { class: LabelClass::NonCoding, range: (0, 100) },
            LabeledRange { class: LabelClass::StartCodon, range: (100, 103) },
            LabeledRange { class: LabelClass::InternalCodon, range: (103, 197) },
            LabeledRange { class: LabelClass::StopCodon, range: (197, 200) },
            LabeledRange { class: LabelClass::NonCoding, range: (200, 600) },
            LabeledRange { class: LabelClass::StartCodon, range: (600, 603) },
            LabeledRange { class: LabelClass::InternalCodon, range: (603, 697) },
            LabeledRange { class: LabelClass::StopCodon, range: (697, 700) },
            LabeledRange { class: LabelClass::NonCoding, range: (700, 1000) }
        ]
    );
}

#[test]
fn sequence_noncoding_ranges() {
    assert_eq!(
        Sequence { start: 0, end: 1000, genes: vec![(100, 200), (600, 999)] }.noncoding_ranges(),
        vec![(0, 100), (200, 600), (999, 1000)]
    );
    assert_eq!(
        Sequence { start: 0, end: 14, genes: vec![(1, 13)] }.noncoding_ranges(),
        vec![(0, 1), (13, 14)]
    );
}

#[test]
fn noncoding_ranges() {
    assert_eq!(
        Sequence { start: 0, end: 1000, genes: vec![(100, 200), (600, 999)] }.noncoding_ranges(),
        vec![(0, 100), (200, 600), (999, 1000)]
    );
    assert_eq!(
        Sequence { start: 0, end: 14, genes: vec![(1, 13)] }.noncoding_ranges(),
        vec![(0, 1), (13, 14)]
    );
}

#[test]
fn sequence_internal_codon_ranges() {
    assert_eq!(
        ranges_fixture().internal_codon_ranges(),
        vec![(103, 197), (603, 697)]
    )
}

#[test]
fn internal_codon_ranges() {
    assert_eq!(
        ranges_fixture().internal_codon_ranges(),
        vec![(103, 197), (603, 697)]
    )
}

#[test]
fn sequence_display() {
    assert_eq!(
        Sequence { start: 0, end: 2800, genes: vec![(189, 255)] }.display(),
        "1-2800: [190, 255]"
    )
}

#[test]
fn display() {
    assert_eq!(
        Sequence { start: 0, end: 2800, genes: vec![(189, 255)] }.display(),
        "1-2800: [190, 255]"
    )
}

#[test]
fn test_parse() {
    assert_eq!(
        parse(String::from("ac\nt\ng")),
        Ok(vec![Base::A, Base::C, Base::T, Base::G])
    );
    assert_eq!(
        parse(String::from("ac\nt\nyg")),
        Err(String::from("y is not a valid dna base"))
    );
}

#[test]
fn start_and_stop_codon_ranges() {
    assert_eq!(
        ranges_fixture().start_codon_ranges(),
        vec![(100, 103), (600, 603)]
    );
    assert_eq!(
        ranges_fixture().stop_codon_ranges(),
        vec![(197, 200), (697, 700)]
    );
}

#[test]
fn noncoding_ranges_without_genes_are_empty() {
    assert_eq!(
        Sequence { start: 0, end: 50, genes: vec![] }.noncoding_ranges(),
        Vec::<(usize, usize)>::new()
    );
}

#[test]
fn base_from_rejects_other_letters() {
    assert_eq!(Base::from('a'), Ok(Base::A));
    assert_eq!(Base::from('q'), Err(String::from("q is not a valid dna base")));
}
