use elliptic_curve::group::GroupEncoding;
use elliptic_curve::hash2curve::{ExpandMsgXmd, GroupDigest};
use elliptic_curve::PrimeField;
use json_commit::ast::{FieldMeta, Primitive};
use json_commit::commit::aggregator::{Aggregator, LeafOutcome, Step};
use json_commit::commit::batch_commit::{conclude, AggregateCommitment, BatchCommit};
use json_commit::commit::generator::{derive_generator, PrimitiveEntry};
use json_commit::commit::single_commit::{blind, encode_value, SingleCommit};
use json_commit::encoding::u64_be_bytes;
use json_commit::errors::{CommitError, EncodingError, JcError, LeafError, LeafFailure};
use json_commit::group::GroupElement;
use json_commit::path::{encode_path_bytes, encode_step_bytes, extend_path, PathStep};
use json_commit::scalar::{be_less, order_be_bytes, Scalar};
use p256::{NistP256, ProjectivePoint};
use sha2::Sha256;

const GENERATOR_TAG: &[u8] = b"JSON-COMMIT-V01-GENERATOR-P256_XMD:SHA-256_SSWU_RO_";
const TEXT_TAG: &[u8] = b"JSON-COMMIT-V01-TEXT-P256_XMD:SHA-256_RO_";
const BLINDING_TAG: &[u8] = b"JSON-COMMIT-V01-BLINDING-P256_XMD:SHA-256_SSWU_RO_";

fn key(k: &str) -> PathStep {
    PathStep::Key(k.to_string())
}

fn hashed(message: &[u8], tag: &[u8]) -> ProjectivePoint {
    NistP256::hash_from_bytes::<ExpandMsgXmd<Sha256>>(&[message], &[tag]).expect("hashing failed")
}

fn leaf(path: Vec<PathStep>, value: Primitive) -> PrimitiveEntry {
    PrimitiveEntry { path, value }
}

fn failure(k: &str) -> LeafFailure {
    LeafFailure { path: vec![key(k)], error: LeafError::Hash }
}

fn element(n: u64) -> GroupElement {
    blind(&Scalar::from_u64(n)).expect("base")
}

#[test]
fn func() {
    let msg = b"Hello, world!";
    let dst = b"MY_APP_DOMAIN_SEPARATION_TAG";
    let point = GroupElement::hash(&msg.to_vec(), &dst.to_vec()).expect("hashing failed");
    println!("Hashed Point: {:?}", point);
    assert_eq!(point.to_bytes(), hashed(msg, dst).to_bytes().to_vec());
    assert_eq!(point.to_bytes().len(), 33);
}

#[test]
fn hashing_depends_on_message_and_tag() {
    let a = GroupElement::hash(&b"a".to_vec(), &b"tag".to_vec()).expect("hash");
    let b = GroupElement::hash(&b"b".to_vec(), &b"tag".to_vec()).expect("hash");
    let c = GroupElement::hash(&b"a".to_vec(), &b"other".to_vec()).expect("hash");
    assert_ne!(a, b);
    assert_ne!(a, c);
    assert_eq!(a, GroupElement::hash(&b"a".to_vec(), &b"tag".to_vec()).expect("hash"));
}

#[test]
fn hashing_takes_any_message_and_tag() {
    let bare = GroupElement::hash(&Vec::new(), &Vec::new()).expect("hash");
    assert_eq!(bare.to_bytes(), hashed(b"", b"").to_bytes().to_vec());
    let long = vec![7u8; 300];
    let tagged = GroupElement::hash(&long, &long).expect("hash");
    assert_eq!(tagged.to_bytes(), hashed(&long, &long).to_bytes().to_vec());
}

#[test]
fn eight_bytes_most_significant_first() {
    assert_eq!(u64_be_bytes(0x0102_0304_0506_0708), vec![1, 2, 3, 4, 5, 6, 7, 8]);
    assert_eq!(u64_be_bytes(0), vec![0u8; 8]);
    assert_eq!(u64_be_bytes(u64::MAX), vec![0xffu8; 8]);
    assert_eq!(u64_be_bytes(258), 258u64.to_be_bytes().to_vec());
}

#[test]
fn a_step_is_tag_width_and_payload() {
    assert_eq!(encode_step_bytes(&PathStep::Index(3)), vec![2, 0, 0, 0, 0, 0, 0, 0, 3]);
    assert_eq!(encode_step_bytes(&key("ab")), vec![1, 0, 0, 0, 0, 0, 0, 0, 2, b'a', b'b']);
    assert_eq!(encode_step_bytes(&key("")), vec![1, 0, 0, 0, 0, 0, 0, 0, 0]);
    assert_eq!(
        encode_step_bytes(&key("é")),
        vec![1, 0, 0, 0, 0, 0, 0, 0, 2, 0xc3, 0xa9]
    );
}

#[test]
fn a_path_is_its_steps_in_a_row() {
    let path = vec![PathStep::Index(1), key("key"), PathStep::Index(0)];
    assert_eq!(
        encode_path_bytes(&path),
        vec![
            2, 0, 0, 0, 0, 0, 0, 0, 1, 1, 0, 0, 0, 0, 0, 0, 0, 3, b'k', b'e', b'y', 2, 0, 0, 0, 0,
            0, 0, 0, 0
        ]
    );
    assert_eq!(encode_path_bytes(&Vec::new()), Vec::<u8>::new());
}

#[test]
fn different_paths_have_different_bytes() {
    let paths = vec![
        vec![],
        vec![key("0")],
        vec![PathStep::Index(0)],
        vec![key("a"), key("b")],
        vec![key("ab")],
        vec![key("a"), PathStep::Index(0)],
        vec![PathStep::Index(0), key("a")],
        vec![key("a\u{1}\0\0\0\0\0\0\0\u{1}b")],
        vec![key(""), key("")],
        vec![key("")],
        vec![PathStep::Index(256)],
        vec![PathStep::Index(1), PathStep::Index(0)],
    ];
    for i in 0..paths.len() {
        for j in 0..i {
            assert_ne!(encode_path_bytes(&paths[i]), encode_path_bytes(&paths[j]));
            assert_ne!(derive_generator(&paths[i]), derive_generator(&paths[j]));
        }
    }
}

#[test]
fn extending_a_path_keeps_it() {
    let path = vec![key("a")];
    assert_eq!(extend_path(&path, PathStep::Index(4)), vec![key("a"), PathStep::Index(4)]);
    assert_eq!(path, vec![key("a")]);
}

#[test]
fn the_generator_is_the_hash_of_the_path() {
    let path = vec![key("x"), PathStep::Index(2)];
    let generator = derive_generator(&path).expect("generator");
    let direct = hashed(&encode_path_bytes(&path), GENERATOR_TAG);
    assert_eq!(generator.to_bytes(), direct.to_bytes().to_vec());
    let entry = leaf(path, Primitive::Null);
    assert_eq!(entry.to_generator().expect("generator"), generator);
}

#[test]
fn scalars_of_small_numbers() {
    let five = Scalar::from_u64(5);
    let mut expected = vec![0u8; 32];
    expected[31] = 5;
    assert_eq!(five.to_bytes(), expected);
    assert_eq!(five.to_bytes(), p256::Scalar::from(5u64).to_repr().to_vec());
    assert_eq!(
        Scalar::from_u64(u64::MAX).to_bytes(),
        p256::Scalar::from(u64::MAX).to_repr().to_vec()
    );
}

#[test]
fn scalars_of_negated_numbers() {
    for m in [1u64, 5, 0xf3b9_cac2_fc63_2551, 0xf3b9_cac2_fc63_2552, u64::MAX] {
        assert_eq!(
            Scalar::from_negated_u64(m).to_bytes(),
            (-p256::Scalar::from(m)).to_repr().to_vec()
        );
    }
    let mut expected = order_be_bytes();
    expected[31] = 0x50;
    assert_eq!(Scalar::from_negated_u64(1).to_bytes(), expected);
}

#[test]
fn reserved_scalars_lie_above_the_numbers() {
    let mut expected = vec![0u8; 32];
    expected[23] = 1;
    expected[31] = 2;
    assert_eq!(Scalar::reserved(2).to_bytes(), expected);
    assert_eq!(
        Scalar::reserved(2).to_bytes(),
        p256::Scalar::from((1u128 << 64) + 2).to_repr().to_vec()
    );
}

#[test]
fn scalars_from_bytes_are_below_the_order() {
    let order = order_be_bytes();
    assert_eq!(
        order,
        vec![
            0xff, 0xff, 0xff, 0xff, 0x00, 0x00, 0x00, 0x00, 0xff, 0xff, 0xff, 0xff, 0xff, 0xff,
            0xff, 0xff, 0xbc, 0xe6, 0xfa, 0xad, 0xa7, 0x17, 0x9e, 0x84, 0xf3, 0xb9, 0xca, 0xc2,
            0xfc, 0x63, 0x25, 0x51
        ]
    );
    assert_eq!(Scalar::from_bytes(&order), None);
    let mut below = order.clone();
    below[31] = 0x50;
    assert_eq!(Scalar::from_bytes(&below).expect("scalar").to_bytes(), below);
    let mut above = order.clone();
    above[31] = 0x52;
    assert_eq!(Scalar::from_bytes(&above), None);
    assert_eq!(Scalar::from_bytes(&vec![0xffu8; 32]), None);
    assert_eq!(Scalar::from_bytes(&vec![0u8; 31]), None);
    assert_eq!(Scalar::from_bytes(&vec![0u8; 33]), None);
    assert_eq!(Scalar::from_bytes(&vec![0u8; 32]), Some(Scalar::from_u64(0)));
}

#[test]
fn bytes_compare_as_numbers() {
    assert!(be_less(&vec![0, 255], &vec![1, 0]));
    assert!(!be_less(&vec![1, 0], &vec![0, 255]));
    assert!(!be_less(&vec![7, 7], &vec![7, 7]));
    assert!(be_less(&vec![7, 6], &vec![7, 7]));
    assert!(!be_less(&vec![], &vec![]));
}

#[test]
fn scalars_of_values() {
    assert_eq!(encode_value(&Primitive::Null), Ok(Scalar::reserved(0)));
    assert_eq!(encode_value(&Primitive::Bool(false)), Ok(Scalar::reserved(1)));
    assert_eq!(encode_value(&Primitive::Bool(true)), Ok(Scalar::reserved(2)));
    assert_eq!(encode_value(&Primitive::Integer(0)), Ok(Scalar::from_u64(0)));
    assert_eq!(encode_value(&Primitive::Integer(41)), Ok(Scalar::from_u64(41)));
    assert_eq!(encode_value(&Primitive::Integer(-41)), Ok(Scalar::from_negated_u64(41)));
    let top = u64::MAX as i128;
    assert_eq!(encode_value(&Primitive::Integer(top)), Ok(Scalar::from_u64(u64::MAX)));
    assert_eq!(encode_value(&Primitive::Integer(-top)), Ok(Scalar::from_negated_u64(u64::MAX)));
    let out_of_range = Err(LeafError::Encoding(EncodingError::OutOfRange));
    assert_eq!(encode_value(&Primitive::Integer(top + 1)), out_of_range);
    assert_eq!(encode_value(&Primitive::Integer(-top - 1)), out_of_range);
    assert_eq!(encode_value(&Primitive::Integer(i128::MAX)), out_of_range);
    assert_eq!(encode_value(&Primitive::Integer(i128::MIN)), out_of_range);
    assert_eq!(
        encode_value(&Primitive::Real(0.5f64.to_bits())),
        Err(LeafError::Encoding(EncodingError::NotIntegral))
    );
}

#[test]
fn the_scalar_of_a_text_is_its_hash() {
    let scalar = encode_value(&Primitive::Text("Alice".to_string())).expect("scalar");
    let direct = NistP256::hash_to_scalar::<ExpandMsgXmd<Sha256>>(&[b"Alice"], &[TEXT_TAG])
        .expect("hashing failed");
    assert_eq!(scalar.to_bytes(), direct.to_repr().to_vec());
    assert_ne!(scalar.to_bytes(), b"Alice".to_vec());
    assert_ne!(scalar, encode_value(&Primitive::Text("Bob".to_string())).expect("scalar"));
}

#[test]
fn a_commitment_is_generator_times_scalar() {
    let path = vec![key("x")];
    let single = SingleCommit::commit(&leaf(path.clone(), Primitive::Integer(3)), None)
        .expect("commit");
    let generator = hashed(&encode_path_bytes(&path), GENERATOR_TAG);
    assert_eq!(single.generator().to_bytes(), generator.to_bytes().to_vec());
    let expected = generator * p256::Scalar::from(3u64);
    assert_eq!(single.commitment().to_bytes(), expected.to_bytes().to_vec());
    let whole = BatchCommit::aggregate(&vec![leaf(path, Primitive::Integer(3))], None)
        .expect("aggregate");
    assert_eq!(whole.to_bytes(), expected.to_bytes().to_vec());
}

#[test]
fn a_blinded_commitment_adds_the_blinding_term() {
    let path = vec![PathStep::Index(0)];
    let blinding = Scalar::from_u64(11);
    let single = SingleCommit::commit(&leaf(path.clone(), Primitive::Bool(true)), Some(&blinding))
        .expect("commit");
    let generator = hashed(&encode_path_bytes(&path), GENERATOR_TAG);
    let base = hashed(b"", BLINDING_TAG);
    let value = p256::Scalar::from((1u128 << 64) + 2);
    let expected = generator * value + base * p256::Scalar::from(11u64);
    assert_eq!(single.commitment().to_bytes(), expected.to_bytes().to_vec());
    assert_eq!(
        blind(&blinding).expect("base").to_bytes(),
        (base * p256::Scalar::from(11u64)).to_bytes().to_vec()
    );
}

#[test]
fn a_document_blinding_adds_one_term() {
    let entries = vec![
        leaf(vec![key("a")], Primitive::Integer(1)),
        leaf(vec![key("b")], Primitive::Integer(-2)),
    ];
    let blinding = Scalar::from_u64(5);
    let whole = BatchCommit::aggregate(&entries, Some(&blinding)).expect("aggregate");
    let expected = hashed(&encode_path_bytes(&entries[0].path), GENERATOR_TAG)
        * p256::Scalar::from(1u64)
        + hashed(&encode_path_bytes(&entries[1].path), GENERATOR_TAG)
            * (-p256::Scalar::from(2u64))
        + hashed(b"", BLINDING_TAG) * p256::Scalar::from(5u64);
    assert_eq!(whole.to_bytes(), expected.to_bytes().to_vec());
}

#[test]
fn multiplying_and_adding_points() {
    let g = GroupElement::hash(&b"g".to_vec(), &b"tag".to_vec()).expect("hash");
    let h = GroupElement::hash(&b"h".to_vec(), &b"tag".to_vec()).expect("hash");
    let twice = g.multiply(&Scalar::from_u64(2));
    assert_ne!(twice, g);
    assert_eq!(twice, GroupElement::sum(&vec![g.clone(), g.clone()]));
    assert_eq!(g.multiply(&Scalar::from_u64(1)), g);
    assert_eq!(g.multiply(&Scalar::from_u64(0)), GroupElement::identity());
    let both = GroupElement::sum(&vec![g.clone(), h.clone()]);
    assert_eq!(both, GroupElement::sum(&vec![h.clone(), g.clone()]));
    assert_ne!(both, g);
    assert_ne!(both, h);
    let direct = hashed(b"g", b"tag") + hashed(b"h", b"tag");
    assert_eq!(both.to_bytes(), direct.to_bytes().to_vec());
    assert_eq!(GroupElement::sum(&vec![g.clone()]), g);
    assert_eq!(
        GroupElement::sum(&vec![g.multiply(&Scalar::from_negated_u64(1)), g.clone()]),
        GroupElement::identity()
    );
}

#[test]
fn points_from_bytes_lie_on_the_curve() {
    let g = GroupElement::hash(&b"g".to_vec(), &b"tag".to_vec()).expect("hash");
    assert_eq!(GroupElement::from_bytes(&g.to_bytes()), Some(g.clone()));
    assert_eq!(GroupElement::from_bytes(&vec![0u8; 33]), Some(GroupElement::identity()));
    assert_eq!(GroupElement::from_bytes(&vec![0u8; 32]), None);
    assert_eq!(GroupElement::from_bytes(&vec![0u8; 34]), None);
    assert_eq!(GroupElement::from_bytes(&vec![5u8; 33]), None);
    assert_eq!(GroupElement::from_bytes(&vec![0xffu8; 33]), None);
    let mut off = g.to_bytes();
    off[0] = 4;
    assert_eq!(GroupElement::from_bytes(&off), None);
    let mut compact = g.to_bytes();
    compact[0] = 5;
    assert_eq!(GroupElement::from_bytes(&compact), None);
    let mut mirrored = g.to_bytes();
    mirrored[0] = mirrored[0] ^ 1;
    let mirror = GroupElement::from_bytes(&mirrored).expect("point");
    assert_ne!(mirror, g);
    assert_eq!(GroupElement::sum(&vec![mirror, g.clone()]), GroupElement::identity());
    let bytes = g.to_bytes();
    assert_eq!(AggregateCommitment::from_bytes(&bytes).expect("point").to_bytes(), bytes);
    assert_eq!(AggregateCommitment::from_bytes(&vec![5u8; 33]), None);
}

#[test]
fn concluding_with_failures_gives_them_back() {
    let r = conclude(vec![element(1)], vec![failure("a"), failure("b")], None);
    match r {
        Err(JcError::Commit(e)) => {
            assert_eq!(e, CommitError { failures: vec![failure("a"), failure("b")] })
        }
        other => panic!("unexpected: {:?}", other),
    }
}

#[test]
fn concluding_without_failures_sums_up() {
    let r = conclude(vec![element(1), element(2)], vec![], None).expect("sum");
    assert_eq!(r.to_bytes(), element(3).to_bytes());
    let blinded = conclude(vec![element(1), element(2)], vec![], Some(&Scalar::from_u64(4)))
        .expect("sum");
    assert_eq!(blinded.to_bytes(), element(7).to_bytes());
    let none = conclude(vec![], vec![], None).expect("sum");
    assert_eq!(none.to_bytes(), vec![0u8; 33]);
}

#[test]
fn the_aggregator_starts_no_more_tasks_than_allowed() {
    let state = Aggregator::new(3, 2, false);
    let (state, step) = state.next();
    assert_eq!(step, Step::Launch(0));
    let (state, step) = state.next();
    assert_eq!(step, Step::Launch(1));
    let (state, step) = state.next();
    assert_eq!(step, Step::Wait);
    let (state, kept) = state.absorb(LeafOutcome::Committed(element(1)));
    assert!(kept);
    let (state, step) = state.next();
    assert_eq!(step, Step::Launch(2));
    let (state, step) = state.next();
    assert_eq!(step, Step::Wait);
    let (state, kept) = state.absorb(LeafOutcome::Committed(element(2)));
    assert!(kept);
    let (state, kept) = state.absorb(LeafOutcome::Committed(element(4)));
    assert!(kept);
    let (state, step) = state.next();
    assert_eq!(step, Step::Finish);
    let (state, kept) = state.absorb(LeafOutcome::Committed(element(8)));
    assert!(!kept);
    assert_eq!(state.finish(None).expect("sum").to_bytes(), element(7).to_bytes());
}

#[test]
fn the_aggregator_counts_a_limit_of_none_as_one() {
    let state = Aggregator::new(2, 0, false);
    let (state, step) = state.next();
    assert_eq!(step, Step::Launch(0));
    let (_, step) = state.next();
    assert_eq!(step, Step::Wait);
}

#[test]
fn the_aggregator_of_no_leaves_finishes_at_once() {
    let state = Aggregator::new(0, 4, true);
    let (state, step) = state.next();
    assert_eq!(step, Step::Finish);
    assert_eq!(state.finish(None).expect("sum").to_bytes(), vec![0u8; 33]);
}

#[test]
fn the_aggregator_reports_every_failure() {
    let state = Aggregator::new(3, 3, false);
    let (state, _) = state.next();
    let (state, _) = state.next();
    let (state, _) = state.next();
    let (state, _) = state.absorb(LeafOutcome::Failed(failure("b")));
    let (state, step) = state.next();
    assert_eq!(step, Step::Wait);
    let (state, _) = state.absorb(LeafOutcome::Committed(element(1)));
    let (state, _) = state.absorb(LeafOutcome::Failed(failure("a")));
    let (state, step) = state.next();
    assert_eq!(step, Step::Finish);
    match state.finish(None) {
        Err(JcError::Commit(e)) => assert_eq!(e.failures, vec![failure("b"), failure("a")]),
        other => panic!("unexpected: {:?}", other),
    }
}

#[test]
fn the_aggregator_can_stop_at_the_first_failure() {
    let state = Aggregator::new(3, 1, true);
    let (state, step) = state.next();
    assert_eq!(step, Step::Launch(0));
    let (state, _) = state.absorb(LeafOutcome::Failed(failure("a")));
    let (state, step) = state.next();
    assert_eq!(step, Step::Finish);
    match state.finish(None) {
        Err(JcError::Commit(e)) => assert_eq!(e.failures, vec![failure("a")]),
        other => panic!("unexpected: {:?}", other),
    }
}

#[test]
fn the_aggregator_times_out() {
    let state = Aggregator::new(2, 2, false);
    let (state, _) = state.next();
    let (state, _) = state.next();
    let (state, _) = state.absorb(LeafOutcome::Committed(element(1)));
    let state = state.expire();
    let (state, step) = state.next();
    assert_eq!(step, Step::Finish);
    let (state, kept) = state.absorb(LeafOutcome::Committed(element(2)));
    assert!(!kept);
    assert!(matches!(state.finish(None), Err(JcError::Timeout)));
}

#[test]
fn the_aggregator_reports_failures_before_a_timeout() {
    let state = Aggregator::new(2, 2, false);
    let (state, _) = state.next();
    let (state, _) = state.next();
    let (state, _) = state.absorb(LeafOutcome::Failed(failure("a")));
    let state = state.expire();
    assert!(matches!(state.finish(None), Err(JcError::Commit(_))));
}

#[test]
fn the_aggregator_refuses_to_finish_early() {
    let state = Aggregator::new(2, 2, false);
    let (state, _) = state.next();
    let (state, _) = state.absorb(LeafOutcome::Committed(element(1)));
    assert!(matches!(state.finish(None), Err(JcError::Other(_))));
}

#[test]
fn errors_of_leaves_become_errors() {
    assert!(matches!(
        JcError::from_leaf(LeafError::Encoding(EncodingError::OutOfRange)),
        JcError::Encoding(EncodingError::OutOfRange)
    ));
    assert!(matches!(JcError::from_leaf(LeafError::Hash), JcError::Crypto(_)));
    let entry = leaf(vec![], Primitive::Real(0));
    assert!(matches!(
        SingleCommit::commit(&entry, None),
        Err(JcError::Encoding(EncodingError::NotIntegral))
    ));
    assert_eq!(
        SingleCommit::commit_leaf(&entry, None),
        Err(LeafError::Encoding(EncodingError::NotIntegral))
    );
}

#[test]
fn outside_errors_become_errors() {
    let io = std::io::Error::new(std::io::ErrorKind::NotFound, "gone");
    assert!(matches!(JcError::from(io), JcError::Io(_)));
    let json = serde_json::from_str::<serde_json::Value>("{").expect_err("malformed");
    assert!(matches!(JcError::from(json), JcError::Json(_)));
}

#[test]
fn field_meta_holds_its_fields() {
    let meta = FieldMeta { name: Some("a".to_string()), offset: 3, len: 4 };
    let copy = meta.clone();
    assert_eq!(copy.name, Some("a".to_string()));
    assert_eq!(copy.offset, 3);
    assert_eq!(copy.len, 4);
}

#[test]
fn copies_are_equal() {
    let entry = leaf(vec![key("a"), PathStep::Index(1)], Primitive::Text("t".to_string()));
    assert_eq!(entry.clone(), entry);
    let scalar = Scalar::from_u64(3);
    assert_eq!(scalar.clone(), scalar);
    let point = element(3);
    assert_eq!(point.clone(), point);
}
