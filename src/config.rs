use vstd::prelude::*;

use crate::alphabet::{is_permutation, Permutation, ALPHABET_SIZE};

verus! {

/// The wiring table and notch position of one rotor.
#[derive(Clone, Copy, Debug)]
pub struct RotorConfig {
    pub wiring: Permutation,
    pub notch: usize,
}

/// The rotors, fastest first, and the table the reflector is built from.
#[derive(Debug)]
pub struct MachineConfig {
    pub rotors: Vec<RotorConfig>,
    pub reflector: Permutation,
}

/// Why a configuration was refused.
#[derive(Clone, Copy, Debug, PartialEq, Eq, Structural)]
pub enum ConfigError {
    /// The wiring table of the rotor at this position is not a permutation.
    RotorWiring(usize),
    /// The notch of the rotor at this position lies outside the alphabet.
    RotorNotch(usize),
    /// The reflector's table is not a permutation.
    ReflectorWiring,
}

/// A rotor can be built from this configuration.
pub open spec fn rotor_config_ok(rc: RotorConfig) -> bool {
    is_permutation(rc.wiring@) && rc.notch < ALPHABET_SIZE
}

/// Every rotor and the reflector can be built from this configuration.
pub open spec fn config_ok(cfg: MachineConfig) -> bool {
    &&& forall|k: int| 0 <= k < cfg.rotors@.len() ==> #[trigger] rotor_config_ok(cfg.rotors@[k])
    &&& is_permutation(cfg.reflector@)
}

/// Position `i` of `p` and of `q` is sent back by the other table.
pub open spec fn inverse_at(p: Seq<usize>, q: Seq<usize>, i: int) -> bool {
    &&& p[i] < 26
    &&& q[p[i] as int] == i
    &&& q[i] < 26
    &&& p[q[i] as int] == i
}

/// The first `n` positions of `p` and `q` are sent back by the other table.
pub open spec fn inverse_upto(p: Seq<usize>, q: Seq<usize>, n: nat) -> bool
    decreases n,
{
    if n == 0 {
        true
    } else {
        inverse_upto(p, q, (n - 1) as nat) && inverse_at(p, q, n - 1)
    }
}

/// A table that another table undoes on both sides is a permutation.
proof fn lemma_inverse_gives_permutation(p: Seq<usize>, q: Seq<usize>)
    requires
        p.len() == 26,
        q.len() == 26,
        inverse_upto(p, q, 26),
    ensures
        is_permutation(p),
{
    lemma_inverse_upto(p, q, 26);
    assert forall|i: int| 0 <= i < 26 implies #[trigger] p[i] < 26 by {
        assert(inverse_at(p, q, i));
    }
    assert forall|i: int, j: int| 0 <= i < 26 && 0 <= j < 26 && i != j implies #[trigger] p[i]
        != #[trigger] p[j] by {
        assert(inverse_at(p, q, i) && inverse_at(p, q, j));
    }
    assert forall|v: int| 0 <= v < 26 implies #[trigger] crate::alphabet::occurs_in(p, 26, v) by {
        assert(inverse_at(p, q, v));
        assert(p[q[v] as int] == v);
    }
}

proof fn lemma_inverse_upto(p: Seq<usize>, q: Seq<usize>, n: nat)
    requires
        inverse_upto(p, q, n),
    ensures
        forall|i: int| 0 <= i < n ==> #[trigger] inverse_at(p, q, i),
    decreases n,
{
    if n > 0 {
        lemma_inverse_upto(p, q, (n - 1) as nat);
    }
}

/// The wiring table of the first built-in rotor.
pub open spec fn first_rotor_table() -> Seq<usize> {
    seq![
        0, 21, 4, 7, 15, 18, 12, 14, 16, 8, 3, 19, 24, 23, 2, 11, 13, 5, 22, 20, 6, 25, 10, 17, 9,
        1,
    ]
}

/// The wiring table of the second built-in rotor.
pub open spec fn second_rotor_table() -> Seq<usize> {
    seq![
        5, 22, 8, 24, 14, 16, 7, 11, 10, 18, 6, 15, 9, 25, 0, 2, 13, 3, 23, 21, 12, 20, 4, 17, 19,
        1,
    ]
}

/// The wiring table of the third built-in rotor.
pub open spec fn third_rotor_table() -> Seq<usize> {
    seq![
        25, 4, 6, 20, 13, 21, 14, 12, 22, 11, 0, 17, 9, 16, 10, 15, 5, 19, 8, 1, 7, 3, 2, 24, 23,
        18,
    ]
}

/// The table the built-in reflector is built from.
pub open spec fn reflector_table() -> Seq<usize> {
    seq![
        2, 17, 9, 1, 21, 12, 15, 11, 20, 3, 24, 14, 4, 10, 16, 22, 23, 5, 19, 7, 25, 6, 18, 13, 0,
        8,
    ]
}

/// The built-in machine: three rotors with notches 3, 5 and 10, fastest
/// first, and a reflector.
pub fn default_config() -> (cfg: MachineConfig)
    ensures
        config_ok(cfg),
        cfg.rotors@.len() == 3,
        cfg.rotors@[0].wiring@ == first_rotor_table(),
        cfg.rotors@[0].notch == 3,
        cfg.rotors@[1].wiring@ == second_rotor_table(),
        cfg.rotors@[1].notch == 5,
        cfg.rotors@[2].wiring@ == third_rotor_table(),
        cfg.rotors@[2].notch == 10,
        cfg.reflector@ == reflector_table(),
{
    let one: Permutation = [
        0, 21, 4, 7, 15, 18, 12, 14, 16, 8, 3, 19, 24, 23, 2, 11, 13, 5, 22, 20, 6, 25, 10, 17, 9,
        1,
    ];
    let two: Permutation = [
        5, 22, 8, 24, 14, 16, 7, 11, 10, 18, 6, 15, 9, 25, 0, 2, 13, 3, 23, 21, 12, 20, 4, 17, 19,
        1,
    ];
    let three: Permutation = [
        25, 4, 6, 20, 13, 21, 14, 12, 22, 11, 0, 17, 9, 16, 10, 15, 5, 19, 8, 1, 7, 3, 2, 24, 23,
        18,
    ];
    let refl: Permutation = [
        2, 17, 9, 1, 21, 12, 15, 11, 20, 3, 24, 14, 4, 10, 16, 22, 23, 5, 19, 7, 25, 6, 18, 13, 0,
        8,
    ];
    proof {
        reveal_with_fuel(inverse_upto, 27);
        assert(one@ =~= first_rotor_table());
        let q0 = seq![
            0, 25, 14, 10, 2, 17, 20, 3, 9, 24, 22, 15, 6, 16, 7, 4, 8, 23, 5, 11, 19, 1, 18, 13,
            12, 21,
        ];
        assert(inverse_upto(one@, q0, 26));
        lemma_inverse_gives_permutation(one@, q0);
        assert(two@ =~= second_rotor_table());
        let q1 = seq![
            14, 25, 15, 17, 22, 0, 10, 6, 2, 12, 8, 7, 20, 16, 4, 11, 5, 23, 9, 24, 21, 19, 1, 18,
            3, 13,
        ];
        assert(inverse_upto(two@, q1, 26));
        lemma_inverse_gives_permutation(two@, q1);
        assert(three@ =~= third_rotor_table());
        let q2 = seq![
            10, 19, 22, 21, 1, 16, 2, 20, 18, 12, 14, 9, 7, 4, 6, 15, 13, 11, 25, 17, 3, 5, 8, 24,
            23, 0,
        ];
        assert(inverse_upto(three@, q2, 26));
        lemma_inverse_gives_permutation(three@, q2);
        assert(refl@ =~= reflector_table());
        let q3 = seq![
            24, 3, 0, 9, 12, 17, 21, 19, 25, 2, 13, 7, 5, 23, 11, 6, 14, 1, 22, 18, 8, 4, 15, 16,
            10, 20,
        ];
        assert(inverse_upto(refl@, q3, 26));
        lemma_inverse_gives_permutation(refl@, q3);
    }
    let cfg = MachineConfig {
        rotors: vec![
            RotorConfig { wiring: one, notch: 3 },
            RotorConfig { wiring: two, notch: 5 },
            RotorConfig { wiring: three, notch: 10 },
        ],
        reflector: refl,
    };
    assert(forall|k: int| 0 <= k < 3 ==> #[trigger] rotor_config_ok(cfg.rotors@[k]));
    cfg
}

} // verus!
