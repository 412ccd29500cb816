use enigma::{
    c2u, check_permutation, default_config, is_lowercase_symbol, u2c, ConfigError, Enigma,
    MachineConfig, Permutation, Reflector, Rotor, RotorConfig, ALPHABET_SIZE,
};

fn identity() -> Permutation {
    let mut p = [0usize; ALPHABET_SIZE];
    for (i, v) in p.iter_mut().enumerate() {
        *v = i;
    }
    p
}

#[test]
fn it_is_symmetric() {
    let plaintext = "helloxkyle";
    let ciphertext = Enigma::default().cipher(plaintext);

    assert_eq!(Enigma::default().cipher(&ciphertext), plaintext);
}

#[test]
fn it_steps() {
    let mut enigma = Enigma::default();
    assert_ne!(enigma.cipher("a"), enigma.cipher("a"));
}

#[test]
fn it_steps_all_rotors() {
    let mut enigma = Enigma::default();
    for _ in 0..(ALPHABET_SIZE.pow(2) + ALPHABET_SIZE + 4) {
        enigma.cipher("a");
    }
    assert_eq!(
        (1, 3, 4),
        (
            enigma.rotors[2].offset,
            enigma.rotors[1].offset,
            enigma.rotors[0].offset
        )
    );
}

#[test]
fn default_machine_enciphers_known_text() {
    let mut enigma = Enigma::default();
    assert_eq!(enigma.cipher("helloxkyle"), "utoafobrbc");
    let offsets: Vec<usize> = enigma.rotors.iter().map(|r| r.offset).collect();
    assert_eq!(offsets, vec![10, 1, 0]);
}

#[test]
fn single_symbols_from_fresh_machine() {
    let mut enigma = Enigma::default();
    assert_eq!(enigma.cipher_one('a'), 'e');
    assert_eq!(enigma.cipher_one('a'), 'm');
}

#[test]
fn symbols_outside_alphabet_pass_unchanged_without_stepping() {
    let mut enigma = Enigma::default();
    assert_eq!(enigma.cipher("hello world"), "utoaf czyba");
    let mut other = Enigma::default();
    assert_eq!(other.cipher_one(' '), ' ');
    assert_eq!(other.cipher_one('A'), 'A');
    assert!(other.rotors.iter().all(|r| r.offset == 0));
}

#[test]
fn identical_machines_agree() {
    let mut a = Enigma::default();
    let mut b = Enigma::default();
    let text = "thequickbrownfoxjumpsoverthelazydog";
    assert_eq!(a.cipher(text), b.cipher(text));
    for k in 0..3 {
        assert_eq!(a.rotors[k].offset, b.rotors[k].offset);
    }
}

#[test]
fn round_trip_of_long_text() {
    let text = "thequickbrownfoxjumpsoverthelazydogthequickbrownfoxjumpsoverthelazydog";
    let ciphertext = Enigma::default().cipher(text);
    assert_eq!(Enigma::default().cipher(&ciphertext), text);
}

#[test]
fn output_stays_in_alphabet() {
    let text: String = (0..200).map(|k| u2c(k % ALPHABET_SIZE)).collect();
    let out = Enigma::default().cipher(&text);
    assert_eq!(out.chars().count(), text.chars().count());
    assert!(out.chars().all(|c| c.is_ascii_lowercase()));
}

#[test]
fn carry_from_first_rotor_at_notch() {
    let mut enigma = Enigma::default();
    enigma.rotors[0].offset = 3;
    enigma.cipher_one('a');
    assert_eq!(enigma.rotors[0].offset, 4);
    assert_eq!(enigma.rotors[1].offset, 1);
    assert_eq!(enigma.rotors[2].offset, 0);
}

#[test]
fn double_step_of_middle_rotor() {
    let mut enigma = Enigma::default();
    enigma.rotors[1].offset = 5;
    enigma.cipher_one('a');
    assert_eq!(enigma.rotors[0].offset, 1);
    assert_eq!(enigma.rotors[1].offset, 6);
    assert_eq!(enigma.rotors[2].offset, 1);
}

#[test]
fn last_offset_wraps_to_zero() {
    let mut enigma = Enigma::default();
    enigma.rotors[0].offset = 25;
    enigma.cipher_one('a');
    assert_eq!(enigma.rotors[0].offset, 0);
}

#[test]
fn rotor_round_trip_at_every_offset() {
    let cfg = default_config();
    for rc in cfg.rotors.iter() {
        let mut rotor = Rotor::from(rc.wiring, rc.notch);
        for o in 0..ALPHABET_SIZE {
            rotor.offset = o;
            for i in 0..ALPHABET_SIZE {
                assert_eq!(rotor.backward(rotor.forward(i)), i);
                assert_eq!(rotor.forward(rotor.backward(i)), i);
            }
        }
    }
}

#[test]
fn rotor_tables_hold_shifts() {
    let p = default_config().rotors[0].wiring;
    let rotor = Rotor::from(p, 3);
    assert_eq!(rotor.offset, 0);
    assert_eq!(rotor.notch, 3);
    assert_eq!(rotor.wiring[1], 20);
    assert_eq!(rotor.wiring_backward[21], 6);
    for i in 0..ALPHABET_SIZE {
        assert_eq!(rotor.forward(i), p[i]);
        assert_eq!(rotor.backward(p[i]), i);
    }
}

#[test]
fn reflector_pairs_ends_of_table() {
    let p = default_config().reflector;
    let reflector = Reflector::from(p);
    assert_eq!(reflector.reflect(2), 8);
    assert_eq!(reflector.reflect(8), 2);
    for i in 0..ALPHABET_SIZE {
        assert_eq!(reflector.reflect(reflector.reflect(i)), i);
        assert_ne!(reflector.reflect(i), i);
    }
}

#[test]
fn reflector_from_identity() {
    let reflector = Reflector::from(identity());
    assert_eq!(reflector.reflect(0), 25);
    assert_eq!(reflector.reflect(12), 13);
}

#[test]
fn permutation_check() {
    assert!(check_permutation(&identity()));
    assert!(check_permutation(&default_config().reflector));
    let mut dup = identity();
    dup[3] = 4;
    assert!(!check_permutation(&dup));
    let mut wide = identity();
    wide[25] = 26;
    assert!(!check_permutation(&wide));
}

#[test]
fn symbol_conversions() {
    assert_eq!(u2c(0), 'a');
    assert_eq!(u2c(25), 'z');
    assert_eq!(c2u('a'), 0);
    assert_eq!(c2u('q'), 16);
    assert!(is_lowercase_symbol('m'));
    assert!(!is_lowercase_symbol('M'));
    assert!(!is_lowercase_symbol('{'));
}

#[test]
fn valid_configuration_builds() {
    let mut built = Enigma::new(&default_config()).unwrap();
    assert_eq!(built.cipher("helloxkyle"), "utoafobrbc");
}

#[test]
fn single_rotor_machine_round_trips() {
    let cfg = MachineConfig {
        rotors: vec![RotorConfig { wiring: identity(), notch: 0 }],
        reflector: identity(),
    };
    let text = "abcdefghijklmnopqrstuvwxyz";
    let ciphertext = Enigma::new(&cfg).unwrap().cipher(text);
    assert_ne!(ciphertext, text);
    assert_eq!(Enigma::new(&cfg).unwrap().cipher(&ciphertext), text);
}

#[test]
fn bad_rotor_wiring_is_refused() {
    let mut cfg = default_config();
    cfg.rotors[1].wiring[0] = cfg.rotors[1].wiring[1];
    assert_eq!(Enigma::new(&cfg).unwrap_err(), ConfigError::RotorWiring(1));
}

#[test]
fn bad_notch_is_refused() {
    let mut cfg = default_config();
    cfg.rotors[2].notch = 26;
    assert_eq!(Enigma::new(&cfg).unwrap_err(), ConfigError::RotorNotch(2));
}

#[test]
fn bad_reflector_is_refused() {
    let mut cfg = default_config();
    cfg.reflector[0] = 30;
    assert_eq!(Enigma::new(&cfg).unwrap_err(), ConfigError::ReflectorWiring);
}
