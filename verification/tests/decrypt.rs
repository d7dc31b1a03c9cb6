use fepdf_model::decision::Severity;
use fepdf_model::decrypt::{
    crypt_filter_method, encryption_dict, key_bytes, permissions, plan_handler, remove_encrypt, saslprep, Cipher,
    Credentials, HandlerPlan,
};
use fepdf_model::object::{Arena, Dict, Object};

fn name(s: &str) -> Object {
    Object::Name(s.to_string())
}

fn dict(entries: Vec<(&str, Object)>) -> Dict {
    Dict { entries: entries.into_iter().map(|(k, v)| (k.to_string(), v)).collect() }
}

#[test]
fn permissions_read_either_form_of_the_same_thing() {
    // `-1036` and `4294966260` are the same 32 bits, and producers write both.
    let arena = Arena { objects: vec![] };
    let unsigned = dict(vec![("P", Object::Integer(4_294_966_260))]);
    assert_eq!(permissions(&arena, &unsigned), Some(-1036));

    let signed = dict(vec![("P", Object::Integer(-1036))]);
    assert_eq!(permissions(&arena, &signed), Some(-1036));

    // Beyond 32 bits it is neither form.
    let nonsense = dict(vec![("P", Object::Integer(1 << 40))]);
    assert_eq!(permissions(&arena, &nonsense), None);
}

/// The transformations 7.6.4.3.3 step (a) asks for.
#[test]
fn saslprep_normalises_what_a_keyboard_produces() {
    assert_eq!(saslprep("\u{FB01}re"), "fire");
    assert_eq!(saslprep("\u{FF50}\u{FF41}\u{FF53}\u{FF53}"), "pass");
    assert_eq!(saslprep("cafe\u{0301}"), "caf\u{00E9}");
}

#[test]
fn saslprep_deletes_and_folds_the_two_mapping_tables() {
    assert_eq!(saslprep("pass\u{00AD}word"), "password");
    assert_eq!(saslprep("pass\u{200B}word"), "password");
    assert_eq!(saslprep("a\u{00A0}b"), "a b");
    assert_eq!(saslprep("a\u{3000}b"), "a b");
}

#[test]
fn saslprep_leaves_an_ascii_password_alone() {
    for password in ["", "secret", "P@ssw0rd!", "a b c"] {
        assert_eq!(saslprep(password), password);
    }
}

#[test]
fn an_indirect_encryption_dictionary_names_the_object_to_skip() {
    let encrypt = dict(vec![("Filter", name("Standard")), ("V", Object::Integer(2))]);
    let arena = Arena { objects: vec![Object::Null, Object::Dictionary(encrypt)] };
    let trailer = dict(vec![("Encrypt", Object::Reference(1))]);
    let (found, skip) = encryption_dict(&arena, &trailer).expect("declared");
    assert_eq!(skip, Some(1));
    assert_eq!(found.entries.len(), 2);
    let direct = dict(vec![("Encrypt", Object::Dictionary(dict(vec![])))]);
    assert_eq!(encryption_dict(&arena, &direct).map(|(_, n)| n), Some(None));
    assert!(encryption_dict(&arena, &dict(vec![])).is_none());
}

#[test]
fn key_length_is_read_in_bits_and_given_in_bytes() {
    let arena = Arena { objects: vec![] };
    assert_eq!(key_bytes(&arena, &dict(vec![("Length", Object::Integer(128))])), Some(16));
    assert_eq!(key_bytes(&arena, &dict(vec![])), None);
}

#[test]
fn the_stream_crypt_filter_decides_the_cipher() {
    let arena = Arena { objects: vec![] };
    let aes = dict(vec![
        ("StmF", name("StdCF")),
        ("CF", Object::Dictionary(dict(vec![("StdCF", Object::Dictionary(dict(vec![("CFM", name("AESV2"))])))]))),
    ]);
    assert_eq!(crypt_filter_method(&arena, &aes), Cipher::Aes);
    assert_eq!(crypt_filter_method(&arena, &dict(vec![])), Cipher::Rc4);
}

#[test]
fn removing_encrypt_leaves_the_rest_of_the_trailer() {
    let mut trailer = dict(vec![("Size", Object::Integer(3)), ("Encrypt", Object::Reference(2)), ("Root", Object::Reference(1))]);
    remove_encrypt(&mut trailer);
    let keys: Vec<&str> = trailer.entries.iter().map(|(k, _)| k.as_str()).collect();
    assert_eq!(keys, vec!["Size", "Root"]);
}

#[test]
fn a_certificate_document_without_a_certificate_stays_encrypted() {
    let arena = Arena { objects: vec![] };
    let trailer = dict(vec![]);
    let encrypt = dict(vec![("Filter", name("Adobe.PubSec")), ("V", Object::Integer(4))]);
    let mut decisions = Vec::new();
    let plan = plan_handler(&arena, &trailer, &encrypt, Credentials::password(""), &mut decisions);
    assert!(matches!(plan, HandlerPlan::Unavailable));
    assert_eq!(decisions.len(), 1);
    assert_eq!(decisions[0].clause, "7.6.5");
    assert_eq!(decisions[0].severity, Severity::Violation);
}

#[test]
fn revision_six_is_handed_to_the_aes_256_handler_after_saslprep() {
    let arena = Arena { objects: vec![] };
    let trailer = dict(vec![]);
    let s = |b: &[u8]| Object::String(b.to_vec());
    let encrypt = dict(vec![
        ("Filter", name("Standard")),
        ("V", Object::Integer(5)),
        ("R", Object::Integer(6)),
        ("U", s(b"u")),
        ("UE", s(b"ue")),
        ("O", s(b"o")),
        ("OE", s(b"oe")),
    ]);
    let mut decisions = Vec::new();
    match plan_handler(&arena, &trailer, &encrypt, Credentials::password("\u{FB01}re"), &mut decisions) {
        HandlerPlan::Aes256 { password, revision, u, oe, encrypt_metadata, .. } => {
            assert_eq!(password, "fire");
            assert_eq!(revision, 6);
            assert_eq!(u, b"u".to_vec());
            assert_eq!(oe, b"oe".to_vec());
            assert!(encrypt_metadata, "true when absent");
        },
        _ => panic!("/V 5 /R 6 is AES-256"),
    }
    assert!(decisions.is_empty());
}

#[test]
fn an_unknown_version_has_no_handler() {
    let arena = Arena { objects: vec![] };
    let encrypt = dict(vec![("Filter", name("Standard")), ("V", Object::Integer(3)), ("R", Object::Integer(3))]);
    let mut decisions = Vec::new();
    let plan = plan_handler(&arena, &dict(vec![]), &encrypt, Credentials::password(""), &mut decisions);
    assert!(matches!(plan, HandlerPlan::Unavailable));
}
