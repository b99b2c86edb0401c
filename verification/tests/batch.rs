use prefix_scan::batch::{
    block_units, encode_key, key_from_encoding, plan_with_flips, plan_writes, Mutation, PlanError,
    WorkUnit, BLOCK_SIZE, KEY_TAG,
};
use rand::rngs::StdRng;
use rand::{Rng, SeedableRng};

fn insert(key: &[u8]) -> Mutation {
    Mutation::Insert { key: key.to_vec(), value: key.to_vec() }
}

fn delete(key: &[u8]) -> Mutation {
    Mutation::Delete { key: key.to_vec() }
}

#[test]
fn key_is_the_tag_and_eight_low_first_bytes() {
    assert_eq!(encode_key(0), Ok(vec![0, 0, 0, 0, 0, 0, 0, 0, 0]));
    assert_eq!(encode_key(1), Ok(vec![0, 1, 0, 0, 0, 0, 0, 0, 0]));
    assert_eq!(encode_key(255), Ok(vec![0, 255, 0, 0, 0, 0, 0, 0, 0]));
    assert_eq!(encode_key(256), Ok(vec![0, 0, 1, 0, 0, 0, 0, 0, 0]));
    assert_eq!(encode_key(0x0102_0304_0506_0708), Ok(vec![0, 8, 7, 6, 5, 4, 3, 2, 1]));
    assert_eq!(encode_key(u64::MAX), Ok(vec![0, 255, 255, 255, 255, 255, 255, 255, 255]));
}

#[test]
fn key_starts_with_the_tag() {
    for pos in [0u64, 7, 999, 1000, 65_536, u64::MAX] {
        let key = encode_key(pos).unwrap();
        assert_eq!(key.len(), 9);
        assert_eq!(key[0], KEY_TAG);
        assert_eq!(&key[1..], &pos.to_le_bytes());
    }
}

#[test]
fn key_is_what_the_encoder_writes_for_a_usize() {
    for pos in [0usize, 1, 999, 1000, 123_456_789] {
        let mut expected = vec![0u8];
        bcs::serialize_into(&mut expected, &pos).unwrap();
        assert_eq!(encode_key(pos as u64), Ok(expected));
    }
}

#[test]
fn keys_with_different_numbers_differ() {
    let mut keys: Vec<Vec<u8>> = (0u64..3000).map(|pos| encode_key(pos).unwrap()).collect();
    keys.sort();
    keys.dedup();
    assert_eq!(keys.len(), 3000);
}

#[test]
fn key_from_encoding_hands_out_the_buffer_on_success() {
    assert_eq!(key_from_encoding(vec![0, 9, 9], Ok(()), 5), Ok(vec![0, 9, 9]));
    assert_eq!(key_from_encoding(Vec::new(), Ok(()), 0), Ok(Vec::new()));
}

#[test]
fn key_from_encoding_reports_the_number_on_failure() {
    assert_eq!(
        key_from_encoding(vec![0, 9, 9], Err(bcs::Error::Eof), 5),
        Err(PlanError::KeyEncoding { pos: 5 })
    );
    assert_eq!(
        key_from_encoding(Vec::new(), Err(bcs::Error::ExceededMaxLen(3)), u64::MAX),
        Err(PlanError::KeyEncoding { pos: u64::MAX })
    );
}

#[test]
fn block_units_write_every_key_and_remove_the_flipped_ones() {
    let keys = vec![vec![0, 1], vec![0, 2], vec![0, 3], vec![0, 4]];
    let (written, removed) = block_units(&keys, &vec![true, false, false, true]);
    assert_eq!(
        written,
        WorkUnit { mutations: vec![insert(&[0, 1]), insert(&[0, 2]), insert(&[0, 3]), insert(&[0, 4])] }
    );
    assert_eq!(removed, WorkUnit { mutations: vec![delete(&[0, 1]), delete(&[0, 4])] });
}

#[test]
fn block_units_of_no_keys_are_empty() {
    let (written, removed) = block_units(&Vec::new(), &vec![true, true]);
    assert_eq!(written, WorkUnit { mutations: vec![] });
    assert_eq!(removed, WorkUnit { mutations: vec![] });
}

#[test]
fn block_units_keep_a_key_without_a_flip() {
    let keys = vec![vec![0, 1], vec![0, 2], vec![0, 3]];
    let (written, removed) = block_units(&keys, &vec![false, true]);
    assert_eq!(written.mutations.len(), 3);
    assert_eq!(removed, WorkUnit { mutations: vec![delete(&[0, 2])] });
    let (_, removed) = block_units(&keys, &Vec::new());
    assert_eq!(removed, WorkUnit { mutations: vec![] });
    let (_, removed) = block_units(&keys, &vec![true, true, true, true, true]);
    assert_eq!(removed.mutations.len(), 3);
}

#[test]
fn plan_for_no_blocks_is_empty() {
    let plan = plan_writes(0, 2).unwrap();
    assert!(plan.inserts.is_empty());
    assert!(plan.deletes.is_empty());
    assert_eq!(plan.n_insert, 0);
    assert_eq!(plan.n_delete, 0);
}

#[test]
fn plan_writes_numbered_keys_block_by_block() {
    let plan = plan_writes(3, 2).unwrap();
    assert_eq!(plan.inserts.len(), 3);
    assert_eq!(plan.deletes.len(), 3);
    assert_eq!(plan.n_insert, 3000);
    let mut pos: u64 = 0;
    for unit in &plan.inserts {
        assert_eq!(unit.mutations.len(), BLOCK_SIZE);
        for mutation in &unit.mutations {
            let key = encode_key(pos).unwrap();
            assert_eq!(*mutation, Mutation::Insert { key: key.clone(), value: key });
            pos += 1;
        }
    }
    assert_eq!(pos, 3000);
}

#[test]
fn plan_removes_the_keys_that_the_generator_flips() {
    let plan = plan_writes(2, 2).unwrap();
    let mut rng = StdRng::seed_from_u64(2);
    let mut pos: u64 = 0;
    let mut n_delete: u64 = 0;
    for unit in &plan.deletes {
        let mut expected = Vec::new();
        for _ in 0..BLOCK_SIZE {
            if rng.gen::<bool>() {
                expected.push(Mutation::Delete { key: encode_key(pos).unwrap() });
            }
            pos += 1;
        }
        n_delete += expected.len() as u64;
        assert_eq!(unit.mutations, expected);
    }
    assert_eq!(plan.n_delete, n_delete);
    assert!(0 < n_delete && n_delete < 2000);
}

#[test]
fn plan_is_the_same_for_the_same_seed() {
    assert_eq!(plan_writes(2, 2), plan_writes(2, 2));
    assert_eq!(plan_writes(1, 77), plan_writes(1, 77));
    let one = plan_writes(2, 2).unwrap();
    let other = plan_writes(2, 3).unwrap();
    assert_eq!(one.inserts, other.inserts);
    assert_ne!(one.deletes, other.deletes);
}

#[test]
fn plan_counts_its_mutations() {
    let plan = plan_writes(4, 11).unwrap();
    let written: usize = plan.inserts.iter().map(|u| u.mutations.len()).sum();
    let removed: usize = plan.deletes.iter().map(|u| u.mutations.len()).sum();
    assert_eq!(plan.n_insert, written as u64);
    assert_eq!(plan.n_delete, removed as u64);
    assert_eq!(plan.n_insert, 4 * BLOCK_SIZE as u64);
}

#[test]
fn plan_for_too_many_blocks_is_refused() {
    let too_many = usize::MAX / BLOCK_SIZE + 1;
    assert_eq!(plan_writes(too_many, 2), Err(PlanError::TooManyKeys));
    assert_eq!(plan_writes(usize::MAX, 2), Err(PlanError::TooManyKeys));
    assert_eq!(plan_with_flips(too_many, &[true]), Err(PlanError::TooManyKeys));
    assert_eq!(plan_with_flips(usize::MAX, &[]), Err(PlanError::TooManyKeys));
}

#[test]
fn plan_with_flips_removes_the_keys_whose_flip_came_up() {
    let mut flips = vec![false; 2 * BLOCK_SIZE];
    flips[0] = true;
    flips[2] = true;
    flips[999] = true;
    flips[1000] = true;
    flips[1500] = true;
    let plan = plan_with_flips(2, &flips).unwrap();
    assert_eq!(plan.n_insert, 2000);
    assert_eq!(plan.n_delete, 5);
    assert_eq!(plan.inserts.len(), 2);
    assert_eq!(plan.inserts[0].mutations.len(), BLOCK_SIZE);
    assert_eq!(plan.inserts[1].mutations.len(), BLOCK_SIZE);
    assert_eq!(plan.inserts[1].mutations[0], insert(&encode_key(1000).unwrap()));
    let removed = |pos: u64| delete(&encode_key(pos).unwrap());
    assert_eq!(plan.deletes[0], WorkUnit { mutations: vec![removed(0), removed(2), removed(999)] });
    assert_eq!(plan.deletes[1], WorkUnit { mutations: vec![removed(1000), removed(1500)] });
}

#[test]
fn plan_with_flips_keeps_a_key_without_a_flip() {
    let plan = plan_with_flips(2, &[false, true]).unwrap();
    assert_eq!(plan.n_insert, 2000);
    assert_eq!(plan.n_delete, 1);
    assert_eq!(plan.deletes[0], WorkUnit { mutations: vec![delete(&encode_key(1).unwrap())] });
    assert_eq!(plan.deletes[1], WorkUnit { mutations: vec![] });
    let plan = plan_with_flips(1, &[]).unwrap();
    assert_eq!(plan.n_delete, 0);
    assert_eq!(plan.deletes, vec![WorkUnit { mutations: vec![] }]);
    let plan = plan_with_flips(1, &vec![true; 3 * BLOCK_SIZE]).unwrap();
    assert_eq!(plan.n_delete, 1000);
    assert_eq!(plan.deletes.len(), 1);
}

#[test]
fn plan_with_flips_for_no_blocks_is_empty() {
    let plan = plan_with_flips(0, &[true, true]).unwrap();
    assert!(plan.inserts.is_empty());
    assert!(plan.deletes.is_empty());
    assert_eq!(plan.n_insert, 0);
    assert_eq!(plan.n_delete, 0);
}

#[test]
fn plan_is_the_plan_for_the_flips_of_the_generator() {
    let mut rng = StdRng::seed_from_u64(2);
    let flips: Vec<bool> = (0..3 * BLOCK_SIZE).map(|_| rng.gen::<bool>()).collect();
    assert_eq!(plan_writes(3, 2), plan_with_flips(3, &flips));
}

#[test]
fn plan_writes_do_not_depend_on_the_flips() {
    let one = plan_with_flips(2, &vec![true; 2 * BLOCK_SIZE]).unwrap();
    let other = plan_with_flips(2, &[]).unwrap();
    assert_eq!(one.inserts, other.inserts);
    assert_eq!(one.n_insert, other.n_insert);
    assert_eq!(plan_writes(2, 9).unwrap().inserts, one.inserts);
}

#[test]
fn shorter_plan_is_the_start_of_the_longer() {
    let flips: Vec<bool> = (0..3 * BLOCK_SIZE).map(|i| i % 3 == 0).collect();
    let short = plan_with_flips(2, &flips).unwrap();
    let long = plan_with_flips(3, &flips).unwrap();
    assert_eq!(short.inserts[..], long.inserts[..2]);
    assert_eq!(short.deletes[..], long.deletes[..2]);
}
