use accumulator::arith::mod_exp;
use accumulator::engine::{batch_add, batch_delete, le_encode, poe_verify};
use accumulator::ledger::{Transaction, UTXO};
use accumulator::prime::hash_to_prime;
use accumulator::witness::{create_all_mem_wit, update_mem_wit, verify_mem_wit, UpdateContext};
use accumulator::{AccumulatorError, GENERATOR, MODULUS};

fn key(k: u64) -> [u8; 32] {
    let mut out = [0u8; 32];
    out[24..].copy_from_slice(&k.to_be_bytes());
    out
}

#[test]
fn test_add() {
    let elems = vec![3u128, 5, 7];
    let (state, _, _) = batch_add(GENERATOR, &elems).unwrap();
    assert_eq!(state, 5);
}

#[test]
fn test_del() {
    let elems = vec![3u128, 5, 7];
    // Collect witnesses for the added elements
    let witnesses = create_all_mem_wit(GENERATOR, &elems);

    // Add elements
    let (state, _, _) = batch_add(GENERATOR, &elems).unwrap();
    assert_eq!(state, 5);

    // Delete elements
    let deletions = vec![
        (elems[0], witnesses[0]),
        (elems[1], witnesses[1]),
        (elems[2], witnesses[2]),
    ];
    let (state, _, _) = batch_delete(state, &deletions).unwrap();
    assert_eq!(state, 2);
}

#[test]
fn test_block() {
    // 1. Construct UTXOs.
    let utxo_0 = UTXO { pub_key: key(0), id: 0 };
    let utxo_1 = UTXO { pub_key: key(1), id: 1 };
    let utxo_2 = UTXO { pub_key: key(2), id: 2 };

    // 2. Hash each UTXO to a prime.
    let elem_0 = hash_to_prime(&utxo_0.encode()).unwrap();
    let elem_1 = hash_to_prime(&utxo_1.encode()).unwrap();
    let elem_2 = hash_to_prime(&utxo_2.encode()).unwrap();
    let elems = vec![elem_0, elem_1, elem_2];

    // 3. Produce witnesses for the added elements.
    let witnesses = create_all_mem_wit(GENERATOR, &elems);

    // 4. Add elements to the accumulator.
    let (state, _, _) = batch_add(GENERATOR, &elems).unwrap();

    // 5. Construct new UTXOs and derive integer representations.
    let utxo_3 = UTXO { pub_key: key(1), id: 0 };
    let utxo_4 = UTXO { pub_key: key(2), id: 1 };
    let utxo_5 = UTXO { pub_key: key(0), id: 2 };

    let elem_3 = hash_to_prime(&utxo_3.encode()).unwrap();
    let elem_4 = hash_to_prime(&utxo_4.encode()).unwrap();
    let elem_5 = hash_to_prime(&utxo_5.encode()).unwrap();

    // 6. Construct transactions carrying each spent coin's witness.
    let tx_0 = Transaction {
        input: utxo_0,
        output: utxo_3,
        witness: le_encode(witnesses[0], 16),
    };
    let tx_1 = Transaction {
        input: utxo_1,
        output: utxo_4,
        witness: le_encode(witnesses[1], 16),
    };
    let tx_2 = Transaction {
        input: utxo_2,
        output: utxo_5,
        witness: le_encode(witnesses[2], 16),
    };

    // 7. Verify the spent coins' witnesses against the current state, as
    // transaction admission would.
    assert!(verify_mem_wit(state, witnesses[0], elem_0));
    assert!(verify_mem_wit(state, witnesses[1], elem_1));
    assert!(verify_mem_wit(state, witnesses[2], elem_2));
    let spent = vec![
        (elem_0, witnesses[0]),
        (elem_1, witnesses[1]),
        (elem_2, witnesses[2]),
    ];
    let _txs = vec![tx_0, tx_1, tx_2];

    // 8. Finalize the round: delete the spent coins, add the new ones.
    let (state, _, _) = batch_delete(state, &spent).unwrap();
    let (state, _, _) = batch_add(state, &vec![elem_3, elem_4, elem_5]).unwrap();

    assert_eq!(state, mod_exp(2, elem_3 * elem_4 * elem_5, MODULUS));
}

#[test]
fn test_mint() {
    let state = mod_exp(GENERATOR, 3, MODULUS);
    assert_eq!(state, 8);
}

#[test]
fn test_witness_soundness_after_add() {
    let elems = vec![3u128, 5, 7];
    let witnesses = create_all_mem_wit(GENERATOR, &elems);
    let (state, _, _) = batch_add(GENERATOR, &elems).unwrap();
    for i in 0..elems.len() {
        assert!(verify_mem_wit(state, witnesses[i], elems[i]));
    }
    // A value that is not a live member must not verify with a stale or
    // unrelated witness.
    assert!(!verify_mem_wit(state, witnesses[0], 11));
}

#[test]
fn test_round_trip_other_primes() {
    let elems = vec![17u128, 19, 23];
    let witnesses = create_all_mem_wit(GENERATOR, &elems);
    let (state, _, _) = batch_add(GENERATOR, &elems).unwrap();
    let deletions: Vec<(u128, u128)> =
        elems.iter().cloned().zip(witnesses.iter().cloned()).collect();
    let (back, _, _) = batch_delete(state, &deletions).unwrap();
    assert_eq!(back, GENERATOR);
}

#[test]
fn test_transition_proofs_verify() {
    let elems = vec![3u128, 5, 7];
    let (state, agg, pf) = batch_add(GENERATOR, &elems).unwrap();
    assert_eq!(agg, 105);
    assert_eq!(poe_verify(GENERATOR, state, agg, pf), Ok(true));
    // A doctored proof is rejected.
    assert_eq!(poe_verify(GENERATOR, state, agg, pf ^ 1), Ok(false));

    let witnesses = create_all_mem_wit(GENERATOR, &elems);
    let deletions = vec![
        (elems[0], witnesses[0]),
        (elems[1], witnesses[1]),
        (elems[2], witnesses[2]),
    ];
    let (back, agg_d, pf_d) = batch_delete(state, &deletions).unwrap();
    assert_eq!(agg_d, 105);
    assert_eq!(poe_verify(back, state, agg_d, pf_d), Ok(true));
}

#[test]
fn test_empty_batches_leave_state_unchanged() {
    let (state, agg, _) = batch_add(5, &[]).unwrap();
    assert_eq!(state, 5);
    assert_eq!(agg, 1);
    let (state, agg, _) = batch_delete(5, &[]).unwrap();
    assert_eq!(state, 5);
    assert_eq!(agg, 1);
}

#[test]
fn test_batch_add_overflow_detected() {
    let huge = u128::MAX;
    assert_eq!(batch_add(GENERATOR, &[huge, huge]), Err(AccumulatorError::Overflow));
}

#[test]
fn test_batch_delete_invalid_witness_rejects_batch() {
    let elems = vec![3u128, 5, 7];
    let witnesses = create_all_mem_wit(GENERATOR, &elems);
    let (state, _, _) = batch_add(GENERATOR, &elems).unwrap();
    // One bad witness rejects the whole batch.
    let deletions = vec![
        (elems[0], witnesses[0]),
        (elems[1], 1u128),
        (elems[2], witnesses[2]),
    ];
    assert_eq!(batch_delete(state, &deletions), Err(AccumulatorError::InvalidWitness));
}

#[test]
fn test_batch_delete_not_coprime_rejected() {
    let elems = vec![4u128, 6];
    let witnesses = create_all_mem_wit(GENERATOR, &elems);
    let (state, _, _) = batch_add(GENERATOR, &elems).unwrap();
    let deletions = vec![(elems[0], witnesses[0]), (elems[1], witnesses[1])];
    assert_eq!(batch_delete(state, &deletions), Err(AccumulatorError::NotCoprime));
}

#[test]
fn test_update_mem_wit_after_add() {
    let elems = vec![3u128, 5, 7];
    let witnesses = create_all_mem_wit(GENERATOR, &elems);
    let (state, _, _) = batch_add(GENERATOR, &elems).unwrap();
    assert!(verify_mem_wit(state, witnesses[0], elems[0]));

    // Another batch is added; the stale witness folds the aggregate in.
    let (new_state, agg, _) = batch_add(state, &[11]).unwrap();
    let refreshed = update_mem_wit(witnesses[0], elems[0], agg, new_state, UpdateContext::Addition)
        .unwrap();
    assert!(verify_mem_wit(new_state, refreshed, elems[0]));
}

#[test]
fn test_update_mem_wit_after_delete() {
    let elems = vec![3u128, 5, 7];
    let witnesses = create_all_mem_wit(GENERATOR, &elems);
    let (state, _, _) = batch_add(GENERATOR, &elems).unwrap();

    // Two other members leave; the holder of the third folds the batch in.
    let deletions = vec![(elems[1], witnesses[1]), (elems[2], witnesses[2])];
    let (new_state, agg, _) = batch_delete(state, &deletions).unwrap();
    let refreshed = update_mem_wit(witnesses[0], elems[0], agg, new_state, UpdateContext::Deletion)
        .unwrap();
    assert!(verify_mem_wit(new_state, refreshed, elems[0]));
}

#[test]
fn test_utxo_encoding_is_fixed_width() {
    let u = UTXO { pub_key: key(7), id: 9 };
    let bytes = u.encode();
    assert_eq!(bytes.len(), 40);
    assert_eq!(&bytes[0..32], &key(7));
    assert_eq!(&bytes[32..40], &9u64.to_le_bytes());
    assert_eq!(le_encode(0x0102, 16)[0], 2);
    assert_eq!(le_encode(0x0102, 16)[1], 1);
}
