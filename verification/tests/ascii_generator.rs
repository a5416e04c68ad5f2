use office_password_cracker::bruteforce_generator::{
    AsciiStringBruteForceGenerator, GeneratorError,
};

#[test]
fn ascii_generator_emits_text_in_order() {
    let charset: Vec<u8> = vec![b'a', b'b', b'c'];
    let mut g = AsciiStringBruteForceGenerator::new(&charset).unwrap();
    assert_eq!(g.next().unwrap(), "a");
    assert_eq!(g.next().unwrap(), "b");
    assert_eq!(g.next().unwrap(), "c");
    assert_eq!(g.next().unwrap(), "aa");
    assert_eq!(g.next().unwrap(), "ab");
}

#[test]
fn ascii_generator_rejects_an_empty_alphabet() {
    let charset: Vec<u8> = Vec::new();
    assert!(matches!(
        AsciiStringBruteForceGenerator::new(&charset),
        Err(GeneratorError::ConfigurationError)
    ));
}

#[test]
fn ascii_generator_over_printable_range() {
    let charset: Vec<u8> = (32..=126).collect();
    let mut g = AsciiStringBruteForceGenerator::new(&charset).unwrap();
    assert_eq!(g.next().unwrap(), " ");
    assert_eq!(g.next().unwrap(), "!");
    let mut last = String::new();
    for _ in 0..200 {
        last = g.next().unwrap();
    }
    assert!(last.is_ascii());
}
