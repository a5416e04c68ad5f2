use office_password_cracker::bruteforce_generator::{BruteForceGenerator, GeneratorError};

#[test]
fn empty_start_first_four_advances() {
    let charset: Vec<u8> = vec![b'a', b'b', b'c'];
    let mut g = BruteForceGenerator::new(&charset).unwrap();
    assert_eq!(g.raw_next(), vec![b'a']);
    assert_eq!(g.raw_next(), vec![b'b']);
    assert_eq!(g.raw_next(), vec![b'c']);
    assert_eq!(g.raw_next(), vec![b'a', b'a']);
}

#[test]
fn start_at_length_two_first_advance() {
    let charset: Vec<u8> = vec![b'a', b'b', b'c'];
    let mut g = BruteForceGenerator::start_at_length(&charset, 2).unwrap();
    assert_eq!(g.raw_next(), vec![b'a', b'b']);
}

#[test]
fn start_from_full_overflow_grows_length() {
    let charset: Vec<u8> = vec![b'a', b'b', b'c'];
    let resume: Vec<u8> = vec![b'c', b'c'];
    let mut g = BruteForceGenerator::start_from(&charset, &resume).unwrap();
    assert_eq!(g.raw_next(), vec![b'a', b'a', b'a']);
}

#[test]
fn single_symbol_alphabet_grows_every_advance() {
    let charset: Vec<u8> = vec![b'x'];
    let mut g = BruteForceGenerator::new(&charset).unwrap();
    for len in 1..=6usize {
        let w = g.raw_next();
        assert_eq!(w.len(), len);
        assert!(w.iter().all(|&c| c == b'x'));
    }
}

#[test]
fn exhaustive_per_length_three_symbols() {
    let charset: Vec<u8> = vec![b'a', b'b', b'c'];
    let mut g = BruteForceGenerator::new(&charset).unwrap();
    let mut length_one: Vec<Vec<u8>> = Vec::new();
    for _ in 0..3 {
        length_one.push(g.raw_next());
    }
    assert!(length_one.iter().all(|w| w.len() == 1));
    let mut length_two: Vec<Vec<u8>> = Vec::new();
    for _ in 0..9 {
        length_two.push(g.raw_next());
    }
    assert!(length_two.iter().all(|w| w.len() == 2));
    // all 9 two-symbol words are distinct and every pair appears
    for &x in charset.iter() {
        for &y in charset.iter() {
            assert!(length_two.contains(&vec![x, y]));
        }
    }
    for i in 0..length_two.len() {
        for j in 0..i {
            assert_ne!(length_two[i], length_two[j]);
        }
    }
    // only then does the first length-3 word appear
    assert_eq!(g.raw_next(), vec![b'a', b'a', b'a']);
}

#[test]
fn order_is_deterministic() {
    let charset: Vec<u8> = vec![b'0', b'1'];
    let mut g1 = BruteForceGenerator::new(&charset).unwrap();
    let mut g2 = BruteForceGenerator::new(&charset).unwrap();
    for _ in 0..40 {
        assert_eq!(g1.raw_next(), g2.raw_next());
    }
}

#[test]
fn length_never_decreases_and_grows_by_one() {
    let charset: Vec<u8> = vec![b'a', b'b', b'c'];
    let mut g = BruteForceGenerator::new(&charset).unwrap();
    let mut prev_len: usize = 0;
    for _ in 0..50 {
        let len = g.raw_next().len();
        assert!(len == prev_len || len == prev_len + 1);
        prev_len = len;
    }
}

#[test]
fn resume_emits_immediate_successor() {
    let charset: Vec<u8> = vec![b'a', b'b', b'c'];
    let resume: Vec<u8> = vec![b'a', b'b'];
    let mut g = BruteForceGenerator::start_from(&charset, &resume).unwrap();
    assert_eq!(g.raw_next(), vec![b'a', b'c']);
}

#[test]
fn resume_never_reemits_the_resumed_sequence() {
    let charset: Vec<u8> = vec![b'a', b'b'];
    let resume: Vec<u8> = vec![b'a', b'b'];
    let mut g = BruteForceGenerator::start_from(&charset, &resume).unwrap();
    for _ in 0..30 {
        assert_ne!(g.raw_next(), resume);
    }
}

#[test]
fn resume_continues_like_a_fresh_run() {
    let charset: Vec<u8> = vec![b'a', b'b', b'c'];
    let mut fresh = BruteForceGenerator::new(&charset).unwrap();
    for _ in 0..3 {
        fresh.raw_next();
    }
    // fresh has just emitted "c"; resuming from "c" must continue identically
    let resume: Vec<u8> = vec![b'c'];
    let mut resumed = BruteForceGenerator::start_from(&charset, &resume).unwrap();
    for _ in 0..20 {
        assert_eq!(resumed.raw_next(), fresh.raw_next());
    }
}

#[test]
fn empty_alphabet_is_a_configuration_error() {
    let charset: Vec<u8> = Vec::new();
    assert!(matches!(
        BruteForceGenerator::new(&charset),
        Err(GeneratorError::ConfigurationError)
    ));
    assert!(matches!(
        BruteForceGenerator::start_at_length(&charset, 2),
        Err(GeneratorError::ConfigurationError)
    ));
    let resume: Vec<u8> = Vec::new();
    assert!(matches!(
        BruteForceGenerator::start_from(&charset, &resume),
        Err(GeneratorError::ConfigurationError)
    ));
}

#[test]
fn unknown_resume_symbol_is_a_resume_mismatch() {
    let charset: Vec<u8> = vec![b'a', b'b', b'c'];
    let resume: Vec<u8> = vec![b'a', b'd'];
    assert!(matches!(
        BruteForceGenerator::start_from(&charset, &resume),
        Err(GeneratorError::ResumeMismatch)
    ));
}

#[test]
fn next_always_yields_a_value() {
    let charset: Vec<u8> = vec![b'a', b'b'];
    let mut g = BruteForceGenerator::new(&charset).unwrap();
    for _ in 0..10 {
        assert!(g.next().is_some());
    }
}

#[test]
fn engine_is_generic_over_the_element_type() {
    let charset: Vec<u32> = vec![10, 20];
    let mut g = BruteForceGenerator::new(&charset).unwrap();
    assert_eq!(g.raw_next(), vec![10u32]);
    assert_eq!(g.raw_next(), vec![20u32]);
    assert_eq!(g.raw_next(), vec![10u32, 10u32]);
    assert_eq!(g.raw_next(), vec![10u32, 20u32]);
}
