use hwpolicy::descriptor::extract_keys_and_template;
use hwpolicy::error::{Error, ParamField, ParamIssue};
use hwpolicy::keys::HARDENED_FLAG;

fn xpub_a() -> String {
    format!("xpub{}", "A".repeat(79))
}

fn xpub_b() -> String {
    format!("xpub{}", "B".repeat(79))
}

#[test]
fn example_descriptor_two_keys() {
    let input = format!(
        "wsh(multi(2,[d34db33f/48'/0'/0'/2']{},{}))#xyz",
        xpub_a(),
        xpub_b()
    );
    let (template, keys) = extract_keys_and_template(input.as_bytes()).unwrap();
    assert_eq!(template, b"wsh(multi(2,@0,@1))".to_vec());
    assert_eq!(keys.len(), 2);

    let k0 = &keys[0];
    let origin = k0.origin.as_ref().unwrap();
    assert_eq!(origin.fingerprint, 0xd34db33f);
    assert_eq!(
        origin.path,
        vec![
            48 + HARDENED_FLAG,
            HARDENED_FLAG,
            HARDENED_FLAG,
            2 + HARDENED_FLAG
        ]
    );
    assert_eq!(k0.xpub, xpub_a().into_bytes());
    assert!(k0.multipath.is_none());

    let k1 = &keys[1];
    assert!(k1.origin.is_none());
    assert_eq!(k1.xpub, xpub_b().into_bytes());
    assert!(k1.multipath.is_none());
}

#[test]
fn checksum_stripping_same_template() {
    let with_checksum = extract_keys_and_template(b"wsh(multi(2,@0,@1))#abc12").unwrap();
    let without = extract_keys_and_template(b"wsh(multi(2,@0,@1))").unwrap();
    assert_eq!(with_checksum.0, without.0);
    assert_eq!(with_checksum.0, b"wsh(multi(2,@0,@1))".to_vec());
    assert!(with_checksum.1.is_empty());
    assert!(without.1.is_empty());
}

#[test]
fn missing_closing_bracket_rejected() {
    let input = format!("wsh([d34db33f/48'{}", xpub_a());
    let err = extract_keys_and_template(input.as_bytes()).unwrap_err();
    match err {
        Error::InvalidParameter(field, issue) => {
            assert_eq!(field, ParamField::Policy);
            assert_eq!(issue, ParamIssue::MissingClosingBracket);
        }
        other => panic!("expected InvalidParameter, got {:?}", other),
    }
}

#[test]
fn identical_keys_collapse_to_one_index() {
    let input = format!(
        "wsh(multi(2,[d34db33f/0']{},[d34db33f/0']{}))",
        xpub_a(),
        xpub_a()
    );
    let (template, keys) = extract_keys_and_template(input.as_bytes()).unwrap();
    assert_eq!(template, b"wsh(multi(2,@0,@0))".to_vec());
    assert_eq!(keys.len(), 1);
}

#[test]
fn parsing_twice_is_deterministic() {
    let input = format!(
        "tr([d34db33f/86'/0'/0']{}/**)#q2w3e",
        xpub_a()
    );
    let r1 = extract_keys_and_template(input.as_bytes()).unwrap();
    let r2 = extract_keys_and_template(input.as_bytes()).unwrap();
    assert_eq!(r1.0, r2.0);
    assert_eq!(r1.1.len(), r2.1.len());
    for (a, b) in r1.1.iter().zip(r2.1.iter()) {
        assert_eq!(a.xpub, b.xpub);
        assert_eq!(a.multipath, b.multipath);
        match (&a.origin, &b.origin) {
            (None, None) => {}
            (Some(x), Some(y)) => {
                assert_eq!(x.fingerprint, y.fingerprint);
                assert_eq!(x.path, y.path);
            }
            _ => panic!("origins differ between two parses"),
        }
    }
}

#[test]
fn multipath_suffix_is_kept_on_the_key() {
    let input = format!("tr([d34db33f]{}/**)", xpub_a());
    let (template, keys) = extract_keys_and_template(input.as_bytes()).unwrap();
    assert_eq!(template, b"tr(@0)".to_vec());
    assert_eq!(keys.len(), 1);
    let origin = keys[0].origin.as_ref().unwrap();
    assert_eq!(origin.fingerprint, 0xd34db33f);
    assert!(origin.path.is_empty());
    assert_eq!(keys[0].multipath, Some(b"/**".to_vec()));
}

#[test]
fn unbracketed_key_has_no_origin() {
    let input = format!("pkh({})", xpub_b());
    let (template, keys) = extract_keys_and_template(input.as_bytes()).unwrap();
    assert_eq!(template, b"pkh(@0)".to_vec());
    assert_eq!(keys.len(), 1);
    assert!(keys[0].origin.is_none());
}

#[test]
fn bad_fingerprint_rejected() {
    let input = format!("tr([d34db33g]{})", xpub_a());
    let err = extract_keys_and_template(input.as_bytes()).unwrap_err();
    match err {
        Error::InvalidParameter(ParamField::Policy, issue) => {
            assert_eq!(issue, ParamIssue::BadFingerprint);
        }
        other => panic!("expected InvalidParameter, got {:?}", other),
    }
}

#[test]
fn bad_derivation_path_rejected() {
    let input = format!("tr([d34db33f/4x]{})", xpub_a());
    let err = extract_keys_and_template(input.as_bytes()).unwrap_err();
    match err {
        Error::InvalidParameter(ParamField::Policy, issue) => {
            assert_eq!(issue, ParamIssue::BadDerivationPath);
        }
        other => panic!("expected InvalidParameter, got {:?}", other),
    }
}

#[test]
fn bracket_without_key_rejected() {
    let err = extract_keys_and_template(b"tr([d34db33f]hello)").unwrap_err();
    match err {
        Error::InvalidParameter(ParamField::Policy, issue) => {
            assert_eq!(issue, ParamIssue::BadKeyEncoding);
        }
        other => panic!("expected InvalidParameter, got {:?}", other),
    }
}

#[test]
fn hardened_h_marker_accepted() {
    let input = format!("wsh([d34db33f/48h/1]{})", xpub_a());
    let (_, keys) = extract_keys_and_template(input.as_bytes()).unwrap();
    let origin = keys[0].origin.as_ref().unwrap();
    assert_eq!(origin.path, vec![48 + HARDENED_FLAG, 1]);
}

#[test]
fn component_at_hardened_limit_rejected() {
    // 2147483648 == 2^31 is no longer a valid unhardened child index.
    let input = format!("wsh([d34db33f/2147483648]{})", xpub_a());
    let err = extract_keys_and_template(input.as_bytes()).unwrap_err();
    assert!(matches!(
        err,
        Error::InvalidParameter(ParamField::Policy, ParamIssue::BadDerivationPath)
    ));
    let fine = format!("wsh([d34db33f/2147483647]{})", xpub_a());
    let (_, keys) = extract_keys_and_template(fine.as_bytes()).unwrap();
    let origin = keys[0].origin.as_ref().unwrap();
    assert_eq!(origin.path, vec![2147483647]);
}

#[test]
fn key_shorter_than_grammar_stays_verbatim() {
    // Only 10 base58 characters after "xpub": not a key expression.
    let input = b"pk(xpubAAAAAAAAAA)".to_vec();
    let (template, keys) = extract_keys_and_template(&input).unwrap();
    assert_eq!(template, input);
    assert!(keys.is_empty());
}
