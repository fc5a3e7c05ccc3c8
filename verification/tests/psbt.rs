//! The checks on transactions.

use bitcoin::absolute::LockTime;
use bitcoin::bip32::{DerivationPath, Fingerprint};
use bitcoin::secp256k1::{PublicKey, Secp256k1, SecretKey};
use bitcoin::transaction::Version;
use bitcoin::{Amount, OutPoint, Psbt, ScriptBuf, Sequence, Transaction, TxIn, TxOut, Witness};

use jade_client::error::JadeError;
use jade_client::psbt::{
    check_fingerprint, check_signed, is_signed, psbt_facts, verify_psbt_fingerprint,
    verify_returned_bytes, verify_signed_psbt, SignatureMarks, SpentOutput,
};

fn previous_transaction(value: u64) -> Transaction {
    Transaction {
        version: Version::TWO,
        lock_time: LockTime::ZERO,
        input: vec![],
        output: vec![TxOut {
            value: Amount::from_sat(value),
            script_pubkey: ScriptBuf::new(),
        }],
    }
}

fn unsigned() -> Psbt {
    let previous = previous_transaction(10_000);
    let spend = Transaction {
        version: Version::TWO,
        lock_time: LockTime::ZERO,
        input: vec![TxIn {
            previous_output: OutPoint::new(previous.compute_txid(), 0),
            script_sig: ScriptBuf::new(),
            sequence: Sequence::ENABLE_RBF_NO_LOCKTIME,
            witness: Witness::new(),
        }],
        output: vec![TxOut {
            value: Amount::from_sat(9_000),
            script_pubkey: ScriptBuf::new(),
        }],
    };
    let mut psbt = Psbt::from_unsigned_tx(spend).expect("unsigned psbt");
    psbt.inputs[0].witness_utxo = Some(previous.output[0].clone());
    psbt.inputs[0].non_witness_utxo = Some(previous);
    psbt
}

fn signed_from(sent: &Psbt) -> Psbt {
    let mut signed = sent.clone();
    signed.inputs[0].final_script_witness = Some(Witness::new());
    signed
}

#[test]
fn a_psbt_without_key_origins_is_rejected() {
    let psbt = unsigned();

    let error = verify_psbt_fingerprint(&psbt, "01020304").unwrap_err();

    assert!(matches!(error, JadeError::InvalidPsbt { .. }));
}

#[test]
fn a_psbt_for_another_fingerprint_is_rejected() {
    let mut psbt = unsigned();
    let secret_key = SecretKey::from_slice(&[1; 32]).expect("valid secret key");
    let public_key = PublicKey::from_secret_key(&Secp256k1::new(), &secret_key);
    psbt.inputs[0].bip32_derivation.insert(
        public_key,
        (Fingerprint::from([1, 2, 3, 4]), DerivationPath::master()),
    );

    let error = verify_psbt_fingerprint(&psbt, "05060708").unwrap_err();

    assert_eq!(
        error,
        JadeError::FingerprintMismatch {
            device: "05060708".to_string(),
            psbt: "01020304".to_string(),
        }
    );
}

#[test]
fn a_psbt_for_the_device_fingerprint_is_accepted() {
    let mut psbt = unsigned();
    let secret_key = SecretKey::from_slice(&[1; 32]).expect("valid secret key");
    let public_key = PublicKey::from_secret_key(&Secp256k1::new(), &secret_key);
    psbt.inputs[0].bip32_derivation.insert(
        public_key,
        (Fingerprint::from([1, 2, 3, 4]), DerivationPath::master()),
    );

    assert_eq!(verify_psbt_fingerprint(&psbt, "01020304"), Ok(()));
}

#[test]
fn one_key_of_the_device_is_enough() {
    let mut first = psbt_facts(&unsigned());
    first.inputs[0].coin.key_origins = vec!["0a0a0a0a".to_string()];
    let mut second = psbt_facts(&unsigned());
    second.inputs[0].coin.key_origins = vec!["0b0b0b0b".to_string()];
    second.inputs[0].coin.taproot_origins = vec!["0c0c0c0c".to_string(), "01020304".to_string()];
    first.inputs.append(&mut second.inputs);
    assert_eq!(check_fingerprint(&first, "01020304"), Ok(()));
    assert_eq!(check_fingerprint(&first, "0b0b0b0b"), Ok(()));
    assert_eq!(
        check_fingerprint(&first, "ffffffff"),
        Err(JadeError::FingerprintMismatch {
            device: "ffffffff".to_string(),
            psbt: "0a0a0a0a".to_string(),
        })
    );
}

#[test]
fn a_taproot_key_of_the_device_is_accepted() {
    let mut psbt = unsigned();
    let secret_key = SecretKey::from_slice(&[2; 32]).expect("valid secret key");
    let (key, _) = PublicKey::from_secret_key(&Secp256k1::new(), &secret_key).x_only_public_key();
    let origin = (Fingerprint::from([9, 8, 7, 6]), DerivationPath::master());
    psbt.inputs[0].tap_key_origins.insert(key, (vec![], origin));
    assert_eq!(verify_psbt_fingerprint(&psbt, "09080706"), Ok(()));
    assert!(verify_psbt_fingerprint(&psbt, "01020304").is_err());
}

#[test]
fn the_facts_are_those_of_the_transaction() {
    let psbt = unsigned();
    let facts = psbt_facts(&psbt);
    let id = |tx: &Transaction| bitcoin::consensus::encode::serialize(&tx.compute_txid());
    assert_eq!(facts.unsigned_txid, id(&psbt.unsigned_tx));
    assert_eq!(facts.inputs.len(), 1);
    let coin = &facts.inputs[0].coin;
    assert_eq!(coin.previous, Some(id(&previous_transaction(10_000))));
    assert_eq!(
        coin.witness_utxo,
        Some(SpentOutput {
            value: 10_000,
            script: vec![]
        })
    );
    assert_eq!(facts.inputs[0].marks, unmarked());
    let signed = psbt_facts(&signed_from(&psbt));
    assert_eq!(signed.inputs[0].marks.final_script_witness, Some(vec![0]));
}

fn unmarked() -> SignatureMarks {
    SignatureMarks {
        partial_sigs: 0,
        tap_script_sigs: 0,
        tap_key_sig: None,
        final_script_sig: None,
        final_script_witness: None,
    }
}

#[test]
fn every_kind_of_signature_counts() {
    assert!(!is_signed(&unmarked()));
    let mark = |change: fn(&mut SignatureMarks)| {
        let mut marks = unmarked();
        change(&mut marks);
        is_signed(&marks)
    };
    assert!(mark(|marks| marks.partial_sigs = 1));
    assert!(mark(|marks| marks.tap_script_sigs = 2));
    assert!(mark(|marks| marks.tap_key_sig = Some(vec![1])));
    assert!(mark(|marks| marks.final_script_sig = Some(vec![])));
    assert!(mark(|marks| marks.final_script_witness = Some(vec![])));

    let sent = unsigned();
    let mut signed = sent.clone();
    signed.inputs[0].final_script_sig = Some(ScriptBuf::new());
    assert_eq!(verify_signed_psbt(&sent, &signed), Ok(()));
}

#[test]
fn returned_bytes_are_read_and_checked() {
    let sent = unsigned();
    let signed = signed_from(&sent);
    assert_eq!(verify_returned_bytes(&sent, &signed.serialize()), Ok(()));
    assert_eq!(
        verify_returned_bytes(&sent, &sent.serialize()),
        Err(JadeError::NothingSigned)
    );
    for garbage in [&b""[..], b"psbt", b"psbt\xff\x00"] {
        assert_eq!(
            verify_returned_bytes(&sent, garbage),
            Err(JadeError::InvalidPsbt {
                error_details: "device returned no transaction".to_string()
            })
        );
    }
}

#[test]
fn a_dropped_previous_transaction_is_accepted() {
    let sent = unsigned();
    let mut signed = signed_from(&sent);
    signed.inputs[0].non_witness_utxo = None;

    assert_eq!(verify_signed_psbt(&sent, &signed), Ok(()));
}

#[test]
fn a_dropped_witness_utxo_is_accepted() {
    let sent = unsigned();
    let mut signed = signed_from(&sent);
    signed.inputs[0].witness_utxo = None;

    assert_eq!(verify_signed_psbt(&sent, &signed), Ok(()));
}

#[test]
fn a_previous_transaction_echoed_without_witness_data_is_accepted() {
    let mut sent = unsigned();
    let mut with_witness = previous_transaction(10_000);
    with_witness.input.push(TxIn {
        previous_output: OutPoint::null(),
        script_sig: ScriptBuf::new(),
        sequence: Sequence::MAX,
        witness: Witness::from_slice(&[vec![1u8, 2, 3]]),
    });
    sent.inputs[0].non_witness_utxo = Some(with_witness.clone());
    let mut signed = signed_from(&sent);
    let mut stripped = with_witness;
    stripped.input[0].witness = Witness::new();
    signed.inputs[0].non_witness_utxo = Some(stripped);

    assert_eq!(verify_signed_psbt(&sent, &signed), Ok(()));
}

#[test]
fn an_altered_previous_transaction_is_rejected() {
    let sent = unsigned();
    let mut signed = signed_from(&sent);
    signed.inputs[0].non_witness_utxo = Some(previous_transaction(20_000));

    assert!(matches!(
        verify_signed_psbt(&sent, &signed),
        Err(JadeError::InvalidPsbt { .. })
    ));
}

#[test]
fn an_altered_witness_utxo_is_rejected() {
    let sent = unsigned();
    let mut signed = signed_from(&sent);
    signed.inputs[0].witness_utxo = Some(TxOut {
        value: Amount::from_sat(1),
        script_pubkey: ScriptBuf::new(),
    });

    assert!(matches!(
        verify_signed_psbt(&sent, &signed),
        Err(JadeError::InvalidPsbt { .. })
    ));
}

#[test]
fn a_reply_without_signatures_is_rejected() {
    let sent = unsigned();
    let signed = sent.clone();

    assert_eq!(verify_signed_psbt(&sent, &signed), Err(JadeError::NothingSigned));
}

#[test]
fn another_transaction_is_rejected() {
    let sent = unsigned();
    let mut other = signed_from(&sent);
    other.unsigned_tx.output[0].value = Amount::from_sat(8_999);
    assert!(matches!(
        verify_signed_psbt(&sent, &other),
        Err(JadeError::InvalidPsbt { .. })
    ));
    let mut shorter = psbt_facts(&signed_from(&sent));
    shorter.inputs.clear();
    assert!(matches!(
        check_signed(&psbt_facts(&sent), &shorter),
        Err(JadeError::InvalidPsbt { .. })
    ));
}
