use office_password_cracker::bruteforce_generator::AsciiStringBruteForceGenerator;
use office_password_cracker::office_hash::office_hash;

#[test]
fn hash_of_the_empty_string_is_the_constant() {
    assert_eq!(office_hash(""), 0xCE4B);
}

#[test]
fn hash_of_known_strings() {
    assert_eq!(office_hash("a"), 0xCE88);
    assert_eq!(office_hash("abc"), 0xCC1A);
    assert_eq!(office_hash("zz"), 0xCF55);
    assert_eq!(office_hash("password"), 0x83AF);
    assert_eq!(office_hash("VelvetSweatshop"), 0x9A0A);
}

#[test]
fn hash_depends_on_order_and_length() {
    assert_ne!(office_hash("ab"), office_hash("ba"));
    assert_ne!(office_hash("a"), office_hash("aa"));
}

#[test]
fn enumeration_finds_a_preimage_for_a_hash() {
    let target = office_hash("ba");
    let charset: Vec<u8> = vec![b'a', b'b', b'c'];
    let mut g = AsciiStringBruteForceGenerator::new(&charset).unwrap();
    let mut found = None;
    for _ in 0..1000 {
        let candidate = g.next().unwrap();
        if office_hash(&candidate) == target {
            found = Some(candidate);
            break;
        }
    }
    let found = found.expect("the search space up to length 6 contains \"ba\"");
    assert_eq!(office_hash(&found), target);
}
