//! A rotor cipher machine over the 26 lowercase letters: rotors stored as
//! rotation-invariant difference tables, a fixed-point-free reflector, and an
//! odometer stepping mechanism with double stepping.

pub mod alphabet;
pub mod config;
pub mod enigma;
pub mod reflector;
pub mod rotor;

pub use alphabet::{c2u, check_permutation, is_lowercase_symbol, u2c, Permutation, ALPHABET_SIZE};
pub use config::{default_config, ConfigError, MachineConfig, RotorConfig};
pub use enigma::Enigma;
pub use reflector::Reflector;
pub use rotor::Rotor;
