use hwpolicy::address::{policy_address_call, single_sig_taproot_policy, split_taproot_path, taproot_address_call};
use hwpolicy::apdu::{decode_be32, decode_simulator_response, frame_simulator_command, status_to_error, DENY_STATUS};
use hwpolicy::descriptor::extract_keys_and_template;
use hwpolicy::error::{Error, ParamField, ParamIssue};
use hwpolicy::keys::HARDENED_FLAG;
use hwpolicy::policy::{compile_wallet_policy, is_registered, is_wallet_registered, PolicyVersion, WalletPolicy};

fn xpub_a() -> String {
    format!("xpub{}", "A".repeat(79))
}

fn xpub_b() -> String {
    format!("xpub{}", "B".repeat(79))
}

fn two_key_descriptor() -> String {
    format!("wsh(multi(2,[d34db33f/48'/0'/0'/2']{},{}))", xpub_a(), xpub_b())
}

fn compiled_policy(hmac: Option<Vec<u8>>) -> WalletPolicy {
    compile_wallet_policy(b"hot wallet", two_key_descriptor().as_bytes(), hmac).unwrap()
}

#[test]
fn compile_builds_template_and_keys() {
    let w = compiled_policy(None);
    assert_eq!(w.name, b"hot wallet".to_vec());
    assert_eq!(w.version, PolicyVersion::V2);
    assert_eq!(w.descriptor_template, b"wsh(multi(2,@0,@1))".to_vec());
    assert_eq!(w.keys.len(), 2);
    assert!(w.hmac.is_none());
}

#[test]
fn registration_requires_proof_and_equality() {
    let proof = vec![7u8; 32];
    let registered = compiled_policy(Some(proof));
    let unregistered = compiled_policy(None);
    let (template, keys) = extract_keys_and_template(two_key_descriptor().as_bytes()).unwrap();

    assert!(is_registered(&Some(registered), b"hot wallet", &template, &keys));
    assert!(!is_registered(&None, b"hot wallet", &template, &keys));
    let stored = Some(unregistered);
    assert!(!is_registered(&stored, b"hot wallet", &template, &keys));
    let registered_again = compiled_policy(Some(vec![7u8; 32]));
    assert!(!is_registered(
        &Some(registered_again),
        b"cold wallet",
        &template,
        &keys
    ));
}

#[test]
fn wallet_registration_check_parses_candidate() {
    let stored = Some(compiled_policy(Some(vec![9u8; 32])));
    assert_eq!(
        is_wallet_registered(&stored, b"hot wallet", two_key_descriptor().as_bytes()).unwrap(),
        true
    );
    let other = format!("wsh(multi(2,{},{}))", xpub_a(), xpub_b());
    assert_eq!(
        is_wallet_registered(&stored, b"hot wallet", other.as_bytes()).unwrap(),
        false
    );
    assert_eq!(
        is_wallet_registered(&None, b"hot wallet", two_key_descriptor().as_bytes()).unwrap(),
        false
    );
}

#[test]
fn attach_proof_marks_registered() {
    let mut w = compiled_policy(None);
    w.attach_proof(vec![1u8; 32]);
    assert_eq!(w.hmac, Some(vec![1u8; 32]));
}

#[test]
fn taproot_path_splits_into_account_and_indices() {
    let path = vec![
        86 + HARDENED_FLAG,
        HARDENED_FLAG,
        HARDENED_FLAG,
        0,
        5,
    ];
    let (account, is_change, index) = split_taproot_path(&path).unwrap();
    assert_eq!(account, vec![86 + HARDENED_FLAG, HARDENED_FLAG, HARDENED_FLAG]);
    assert!(is_change);
    assert_eq!(index, 5);

    let (_, is_change, _) =
        split_taproot_path(&vec![86 + HARDENED_FLAG, HARDENED_FLAG, HARDENED_FLAG, 1, 5]).unwrap();
    assert!(!is_change);

    let short = vec![86 + HARDENED_FLAG, HARDENED_FLAG, 0, 5];
    let err = split_taproot_path(&short).unwrap_err();
    assert!(matches!(
        err,
        Error::InvalidParameter(ParamField::DerivationPath, ParamIssue::WrongTaprootPathShape)
    ));
    let unhardened_prefix = vec![86, HARDENED_FLAG, HARDENED_FLAG, 0, 5];
    assert!(split_taproot_path(&unhardened_prefix).is_err());
}

#[test]
fn taproot_policy_text_is_exact() {
    let account = vec![86 + HARDENED_FLAG, HARDENED_FLAG, HARDENED_FLAG];
    let text = single_sig_taproot_policy(0xd34db33f, &account, xpub_a().as_bytes());
    let expected = format!("tr([d34db33f/86'/0'/0']{}/**)", xpub_a());
    assert_eq!(text, expected.into_bytes());
}

#[test]
fn taproot_address_call_compiles_policy() {
    let path = vec![86 + HARDENED_FLAG, HARDENED_FLAG, HARDENED_FLAG, 0, 7];
    let call = taproot_address_call(&path, 0xd34db33f, xpub_a().as_bytes()).unwrap();
    assert_eq!(call.policy.descriptor_template, b"tr(@0)".to_vec());
    assert_eq!(call.policy.keys.len(), 1);
    let origin = call.policy.keys[0].origin.as_ref().unwrap();
    assert_eq!(origin.fingerprint, 0xd34db33f);
    assert_eq!(
        origin.path,
        vec![86 + HARDENED_FLAG, HARDENED_FLAG, HARDENED_FLAG]
    );
    assert_eq!(call.policy.keys[0].multipath, Some(b"/**".to_vec()));
    assert!(call.policy.name.is_empty());
    assert!(call.is_change);
    assert_eq!(call.index, 7);
    assert!(call.display);

    let bad = vec![86 + HARDENED_FLAG, HARDENED_FLAG, 0, 7];
    assert!(taproot_address_call(&bad, 0xd34db33f, xpub_a().as_bytes()).is_err());
}

#[test]
fn policy_address_needs_attached_policy() {
    let err = policy_address_call(&None, 3, false).unwrap_err();
    assert!(matches!(err, Error::MissingPolicy));

    let stored = Some(compiled_policy(Some(vec![2u8; 32])));
    let call = policy_address_call(&stored, 3, true).unwrap();
    assert_eq!(call.policy.descriptor_template, b"wsh(multi(2,@0,@1))".to_vec());
    assert_eq!(call.policy.hmac, Some(vec![2u8; 32]));
    assert!(call.is_change);
    assert_eq!(call.index, 3);
    assert!(call.display);
}

#[test]
fn key_expression_renders_back_to_text() {
    let input = format!("wsh([d34db33f/48'/0'/0'/2']{})", xpub_a());
    let (_, keys) = extract_keys_and_template(input.as_bytes()).unwrap();
    let text = hwpolicy::address::key_expression(&keys[0]);
    assert_eq!(
        text,
        format!("[d34db33f/48'/0'/0'/2']{}", xpub_a()).into_bytes()
    );

    let multi = format!("tr([00000001]{}/**)", xpub_b());
    let (_, keys) = extract_keys_and_template(multi.as_bytes()).unwrap();
    let text = hwpolicy::address::key_expression(&keys[0]);
    assert_eq!(text, format!("[00000001]{}/**", xpub_b()).into_bytes());
}

#[test]
fn simulator_command_frame_is_exact() {
    let framed = frame_simulator_command(0xE1, 0x03, 0x00, 0x01, &vec![1u8, 2, 3]);
    assert_eq!(
        framed,
        vec![0u8, 0, 0, 8, 0xE1, 0x03, 0x00, 0x01, 3, 1, 2, 3]
    );
}

#[test]
fn empty_payload_frame_is_exact() {
    let framed = frame_simulator_command(0xB0, 0x01, 0x00, 0x00, &Vec::new());
    assert_eq!(framed, vec![0u8, 0, 0, 5, 0xB0, 0x01, 0x00, 0x00, 0]);
}

#[test]
fn simulator_response_splits_status_and_payload() {
    let (sw, data) = decode_simulator_response(&vec![0xAAu8, 0xBB, 0x90, 0x00]).unwrap();
    assert_eq!(sw, 0x9000);
    assert_eq!(data, vec![0xAAu8, 0xBB]);

    let (sw, data) = decode_simulator_response(&vec![0x69u8, 0x85]).unwrap();
    assert_eq!(sw, DENY_STATUS);
    assert!(data.is_empty());

    let err = decode_simulator_response(&vec![0x90u8]).unwrap_err();
    assert!(matches!(err, Error::Device(_)));
}

#[test]
fn denied_status_becomes_user_refusal() {
    assert!(matches!(
        status_to_error(DENY_STATUS, &b"denied".to_vec()),
        Error::UserRefused
    ));
    match status_to_error(0x6A80, &b"incorrect data".to_vec()) {
        Error::Device(m) => assert_eq!(m, b"incorrect data".to_vec()),
        other => panic!("expected Device, got {:?}", other),
    }
}

#[test]
fn length_prefix_decodes_big_endian() {
    assert_eq!(decode_be32(&[0, 0, 0, 5]), 5);
    assert_eq!(decode_be32(&[0x12, 0x34, 0x56, 0x78]), 0x12345678);
}
