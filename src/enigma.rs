use vstd::prelude::*;

use crate::alphabet::{
    c2u, check_permutation, index_of, is_lowercase_symbol, is_permutation, is_symbol, symbol_of,
    u2c, ALPHABET_SIZE,
};
use crate::config::{
    config_ok, default_config, first_rotor_table, reflector_table, rotor_config_ok,
    second_rotor_table, third_rotor_table, ConfigError, MachineConfig,
};
use crate::reflector::{reflector_built_from, Reflector};
use crate::rotor::{built_from, lemma_rotor_round_trip, Rotor};

verus! {

/// Every rotor of the sequence is well formed.
pub open spec fn rotors_wf(rs: Seq<Rotor>) -> bool {
    forall|k: int| 0 <= k < rs.len() ==> #[trigger] rs[k].wf()
}

/// The contact reached after passing forward through the first `n` rotors,
/// fastest first.
pub open spec fn forward_through(rs: Seq<Rotor>, n: nat, u: int) -> int
    decreases n,
{
    if n == 0 {
        u
    } else {
        rs[n - 1].spec_forward(forward_through(rs, (n - 1) as nat, u))
    }
}

/// The contact reached after passing back through the first `n` rotors,
/// slowest first.
pub open spec fn backward_through(rs: Seq<Rotor>, n: nat, u: int) -> int
    decreases n,
{
    if n == 0 {
        u
    } else {
        backward_through(rs, (n - 1) as nat, rs[n - 1].spec_backward(u))
    }
}

/// The full signal path for index `u` at the given rotor positions.
pub open spec fn encipher_index(rs: Seq<Rotor>, refl: Reflector, u: int) -> int {
    backward_through(rs, rs.len(), refl.wiring@[forward_through(rs, rs.len(), u) as int] as int)
}

/// Rotor `i` steps in a pass that starts from positions `rs`: the first rotor
/// always does; another does when the rotor before it sits at its notch, or
/// when it sits at its own notch.
pub open spec fn steps(rs: Seq<Rotor>, i: int) -> bool {
    i == 0 || rs[i - 1].offset == rs[i - 1].notch || rs[i].offset == rs[i].notch
}

/// The rotor turned by one position.
pub open spec fn advanced(r: Rotor) -> Rotor {
    Rotor { offset: ((r.offset + 1) % 26) as usize, ..r }
}

/// The rotors after one stepping pass.
pub open spec fn stepped(rs: Seq<Rotor>) -> Seq<Rotor> {
    Seq::new(rs.len(), |i: int| if steps(rs, i) { advanced(rs[i]) } else { rs[i] })
}

/// What the machine emits for `c`: a letter goes through the signal path,
/// anything else passes unchanged.
pub open spec fn cipher_symbol(rs: Seq<Rotor>, refl: Reflector, c: char) -> char {
    if is_symbol(c) {
        symbol_of(encipher_index(rs, refl, index_of(c)))
    } else {
        c
    }
}

/// The rotors after `c`: a letter steps them, anything else leaves them.
pub open spec fn next_rotors(rs: Seq<Rotor>, c: char) -> Seq<Rotor> {
    if is_symbol(c) {
        stepped(rs)
    } else {
        rs
    }
}

/// The rotors after the whole of `text`.
pub open spec fn rotors_after(rs: Seq<Rotor>, text: Seq<char>) -> Seq<Rotor>
    decreases text.len(),
{
    if text.len() == 0 {
        rs
    } else {
        next_rotors(rotors_after(rs, text.drop_last()), text.last())
    }
}

/// What the machine emits for the whole of `text`.
pub open spec fn ciphertext(rs: Seq<Rotor>, refl: Reflector, text: Seq<char>) -> Seq<char>
    decreases text.len(),
{
    if text.len() == 0 {
        Seq::empty()
    } else {
        ciphertext(rs, refl, text.drop_last()).push(
            cipher_symbol(rotors_after(rs, text.drop_last()), refl, text.last()),
        )
    }
}

/// A machine: rotors from fastest to slowest, and a reflector.
#[derive(Debug)]
pub struct Enigma {
    pub rotors: Vec<Rotor>,
    pub reflector: Reflector,
}

/// `m` holds, at offset 0, the rotors and the reflector that `cfg` describes.
pub open spec fn machine_built_from(m: Enigma, cfg: MachineConfig) -> bool {
    &&& m.rotors@.len() == cfg.rotors@.len()
    &&& forall|k: int|
        0 <= k < m.rotors@.len() ==> #[trigger] built_from(
            m.rotors@[k],
            cfg.rotors@[k].wiring@,
            cfg.rotors@[k].notch,
        )
    &&& reflector_built_from(m.reflector, cfg.reflector@)
}

impl Enigma {
    pub open spec fn wf(&self) -> bool {
        rotors_wf(self.rotors@) && self.reflector.wf()
    }

    /// Builds the machine that a valid configuration describes.
    pub fn from_config(config: &MachineConfig) -> (m: Enigma)
        requires
            config_ok(*config),
        ensures
            m.wf(),
            machine_built_from(m, *config),
    {
        let n = config.rotors.len();
        let mut rotors: Vec<Rotor> = Vec::new();
        let mut k: usize = 0;
        while k < n
            invariant
                0 <= k <= n,
                n == config.rotors@.len(),
                config_ok(*config),
                rotors@.len() == k,
                forall|j: int| 0 <= j < k ==> #[trigger] rotors@[j].wf(),
                forall|j: int|
                    0 <= j < k ==> #[trigger] built_from(
                        rotors@[j],
                        config.rotors@[j].wiring@,
                        config.rotors@[j].notch,
                    ),
            decreases n - k,
        {
            let rc = config.rotors[k];
            assert(rotor_config_ok(config.rotors@[k as int]));
            rotors.push(Rotor::from(rc.wiring, rc.notch));
            k = k + 1;
        }
        Enigma { rotors, reflector: Reflector::from(config.reflector) }
    }

    /// Checks a configuration and builds its machine. Rotors are checked in
    /// order, the wiring of each before its notch, and the reflector last; the
    /// first fault found is reported.
    pub fn new(config: &MachineConfig) -> (r: Result<Enigma, ConfigError>)
        ensures
            r is Ok <==> config_ok(*config),
            match r {
                Ok(m) => m.wf() && machine_built_from(m, *config),
                Err(ConfigError::RotorWiring(k)) => {
                    &&& k < config.rotors@.len()
                    &&& forall|j: int| 0 <= j < k ==> #[trigger] rotor_config_ok(config.rotors@[j])
                    &&& !is_permutation(config.rotors@[k as int].wiring@)
                },
                Err(ConfigError::RotorNotch(k)) => {
                    &&& k < config.rotors@.len()
                    &&& forall|j: int| 0 <= j < k ==> #[trigger] rotor_config_ok(config.rotors@[j])
                    &&& is_permutation(config.rotors@[k as int].wiring@)
                    &&& config.rotors@[k as int].notch >= ALPHABET_SIZE
                },
                Err(ConfigError::ReflectorWiring) => {
                    &&& forall|j: int|
                        0 <= j < config.rotors@.len() ==> #[trigger] rotor_config_ok(config.rotors@[j])
                    &&& !is_permutation(config.reflector@)
                },
            },
    {
        let n = config.rotors.len();
        let mut k: usize = 0;
        while k < n
            invariant
                0 <= k <= n,
                n == config.rotors@.len(),
                forall|j: int| 0 <= j < k ==> #[trigger] rotor_config_ok(config.rotors@[j]),
            decreases n - k,
        {
            if !check_permutation(&config.rotors[k].wiring) {
                assert(!rotor_config_ok(config.rotors@[k as int]));
                return Err(ConfigError::RotorWiring(k));
            }
            if config.rotors[k].notch >= ALPHABET_SIZE {
                assert(!rotor_config_ok(config.rotors@[k as int]));
                return Err(ConfigError::RotorNotch(k));
            }
            k = k + 1;
        }
        if !check_permutation(&config.reflector) {
            return Err(ConfigError::ReflectorWiring);
        }
        Ok(Enigma::from_config(config))
    }

    /// The built-in machine: three rotors at offset 0 with notches 3, 5 and
    /// 10, fastest first, and a reflector.
    pub fn default() -> (m: Enigma)
        ensures
            m.wf(),
            m.rotors@.len() == 3,
            built_from(m.rotors@[0], first_rotor_table(), 3),
            built_from(m.rotors@[1], second_rotor_table(), 5),
            built_from(m.rotors@[2], third_rotor_table(), 10),
            reflector_built_from(m.reflector, reflector_table()),
    {
        let cfg = default_config();
        let m = Enigma::from_config(&cfg);
        assert(built_from(m.rotors@[0], cfg.rotors@[0].wiring@, cfg.rotors@[0].notch));
        assert(built_from(m.rotors@[1], cfg.rotors@[1].wiring@, cfg.rotors@[1].notch));
        assert(built_from(m.rotors@[2], cfg.rotors@[2].wiring@, cfg.rotors@[2].notch));
        m
    }

    /// One stepping pass, decided from the positions before the pass.
    fn step(&mut self)
        requires
            old(self).wf(),
        ensures
            final(self).wf(),
            final(self).reflector == old(self).reflector,
            final(self).rotors@ == stepped(old(self).rotors@),
    {
        let ghost rs = self.rotors@;
        let n = self.rotors.len();
        let mut carry = true;
        let mut i: usize = 0;
        while i < n
            invariant
                0 <= i <= n,
                n == rs.len(),
                rotors_wf(rs),
                self.rotors@.len() == n,
                self.reflector == old(self).reflector,
                rs == old(self).rotors@,
                forall|k: int| 0 <= k < i ==> #[trigger] self.rotors@[k] == stepped(rs)[k],
                forall|k: int| i <= k < n ==> #[trigger] self.rotors@[k] == rs[k],
                carry == (i == 0 || rs[i - 1].offset == rs[i - 1].notch),
            decreases n - i,
        {
            let r = self.rotors[i];
            assert(rs[i as int].wf());
            let at_notch = r.offset == r.notch;
            if carry || at_notch {
                let mut t = r;
                t.offset = (r.offset + 1) % ALPHABET_SIZE;
                self.rotors.set(i, t);
            }
            carry = at_notch;
            i = i + 1;
        }
        assert(self.rotors@ =~= stepped(rs));
        assert forall|k: int| 0 <= k < n implies #[trigger] self.rotors@[k].wf() by {
            assert(rs[k].wf());
        }
    }

    /// Enciphers one symbol at the current positions, then steps the rotors.
    /// A symbol outside the alphabet comes back unchanged and steps nothing.
    pub fn cipher_one(&mut self, c: char) -> (r: char)
        requires
            old(self).wf(),
        ensures
            final(self).wf(),
            final(self).reflector == old(self).reflector,
            r == cipher_symbol(old(self).rotors@, old(self).reflector, c),
            final(self).rotors@ == next_rotors(old(self).rotors@, c),
            is_symbol(c) ==> is_symbol(r),
    {
        if !is_lowercase_symbol(c) {
            return c;
        }
        let ghost rs = self.rotors@;
        let u0 = c2u(c);
        let mut u = u0;
        let n = self.rotors.len();
        let mut k: usize = 0;
        while k < n
            invariant
                0 <= k <= n,
                n == rs.len(),
                rs == self.rotors@,
                self.wf(),
                u < ALPHABET_SIZE,
                u == forward_through(rs, k as nat, u0 as int),
            decreases n - k,
        {
            assert(rs[k as int].wf());
            u = self.rotors[k].forward(u);
            k = k + 1;
        }
        u = self.reflector.reflect(u);
        let ghost goal = encipher_index(rs, self.reflector, u0 as int);
        let mut k: usize = n;
        while k > 0
            invariant
                0 <= k <= n,
                n == rs.len(),
                rs == self.rotors@,
                self.wf(),
                u < ALPHABET_SIZE,
                backward_through(rs, k as nat, u as int) == goal,
            decreases k,
        {
            k = k - 1;
            assert(rs[k as int].wf());
            u = self.rotors[k].backward(u);
        }
        self.step();
        u2c(u)
    }

    /// Enciphers `s` symbol by symbol, stepping as it goes.
    pub fn cipher(&mut self, s: &str) -> (r: String)
        requires
            old(self).wf(),
        ensures
            final(self).wf(),
            final(self).reflector == old(self).reflector,
            r@ == ciphertext(old(self).rotors@, old(self).reflector, s@),
            final(self).rotors@ == rotors_after(old(self).rotors@, s@),
            r@.len() == s@.len(),
            forall|k: int| 0 <= k < s@.len() && is_symbol(s@[k]) ==> is_symbol(#[trigger] r@[k]),
    {
        let ghost rs = self.rotors@;
        let mut result = String::new();
        for c in it: s.chars()
            invariant
                self.wf(),
                self.reflector == old(self).reflector,
                rs == old(self).rotors@,
                it.seq() == s@,
                result@ == ciphertext(rs, self.reflector, s@.take(it.index() as int)),
                self.rotors@ == rotors_after(rs, s@.take(it.index() as int)),
        {
            let ghost done = s@.take(it.index() as int);
            let ghost next = s@.take(it.index() + 1);
            assert(next.drop_last() =~= done);
            assert(next.last() == c);
            let d = self.cipher_one(c);
            push_char(&mut result, d);
        }
        assert(s@.take(s@.len() as int) =~= s@);
        proof {
            lemma_alphabet_closure(rs, self.reflector, s@);
        }
        result
    }
}

/// Each letter's symbol is a letter with that index, and a letter is the
/// symbol of its own index.
proof fn lemma_symbol_of(u: int, c: char)
    requires
        0 <= u < 26,
    ensures
        is_symbol(symbol_of(u)),
        index_of(symbol_of(u)) == u,
        is_symbol(c) ==> symbol_of(index_of(c)) == c,
{
    let w = ((u + 97) as u8) as char;
    assert(is_symbol(w) && index_of(w) == u);
    if is_symbol(c) {
        let d = symbol_of(index_of(c));
        assert(d as u32 == c as u32);
    }
}

/// Passing forward then back through the first `n` rotors, or back then
/// forward, returns the contact.
proof fn lemma_through_inverse(rs: Seq<Rotor>, n: nat, u: int)
    requires
        rotors_wf(rs),
        n <= rs.len(),
        0 <= u < 26,
    ensures
        0 <= forward_through(rs, n, u) < 26,
        0 <= backward_through(rs, n, u) < 26,
        backward_through(rs, n, forward_through(rs, n, u)) == u,
        forward_through(rs, n, backward_through(rs, n, u)) == u,
    decreases n,
{
    if n > 0 {
        let m = (n - 1) as nat;
        let r = rs[m as int];
        assert(r.wf());
        lemma_through_inverse(rs, m, u);
        let f = forward_through(rs, m, u);
        lemma_rotor_round_trip(r, f);
        lemma_rotor_round_trip(r, u);
        lemma_through_inverse(rs, m, r.spec_backward(u));
    }
}

/// The signal path at fixed positions is its own inverse and stays in the
/// alphabet.
pub proof fn lemma_encipher_involution(rs: Seq<Rotor>, refl: Reflector, u: int)
    requires
        rotors_wf(rs),
        refl.wf(),
        0 <= u < 26,
    ensures
        0 <= encipher_index(rs, refl, u) < 26,
        encipher_index(rs, refl, encipher_index(rs, refl, u)) == u,
{
    let n = rs.len();
    let f = forward_through(rs, n, u);
    lemma_through_inverse(rs, n, u);
    let x = refl.wiring@[f] as int;
    lemma_through_inverse(rs, n, x);
    let e = backward_through(rs, n, x);
    assert(forward_through(rs, n, e) == x);
    assert(refl.wiring@[x] == f);
    lemma_through_inverse(rs, n, f);
}

/// A stepping pass keeps every rotor well formed.
proof fn lemma_stepped_wf(rs: Seq<Rotor>)
    requires
        rotors_wf(rs),
    ensures
        rotors_wf(stepped(rs)),
        stepped(rs).len() == rs.len(),
{
    assert forall|k: int| 0 <= k < stepped(rs).len() implies #[trigger] stepped(rs)[k].wf() by {
        assert(rs[k].wf());
    }
}

/// The output has the input's length; a letter comes out as a letter, and
/// anything else comes out unchanged. The rotors stay well formed.
pub proof fn lemma_alphabet_closure(rs: Seq<Rotor>, refl: Reflector, text: Seq<char>)
    requires
        rotors_wf(rs),
        refl.wf(),
    ensures
        ciphertext(rs, refl, text).len() == text.len(),
        forall|k: int|
            0 <= k < text.len() ==> (is_symbol(text[k]) ==> is_symbol(
                #[trigger] ciphertext(rs, refl, text)[k],
            )) && (!is_symbol(text[k]) ==> ciphertext(rs, refl, text)[k] == text[k]),
        rotors_wf(rotors_after(rs, text)),
    decreases text.len(),
{
    if text.len() > 0 {
        let t = text.drop_last();
        lemma_alphabet_closure(rs, refl, t);
        let r = rotors_after(rs, t);
        lemma_stepped_wf(r);
        let x = text.last();
        if is_symbol(x) {
            lemma_encipher_involution(r, refl, index_of(x));
            lemma_symbol_of(encipher_index(r, refl, index_of(x)), x);
        }
        let c = ciphertext(rs, refl, text);
        assert forall|k: int| 0 <= k < text.len() implies (is_symbol(text[k]) ==> is_symbol(
            #[trigger] c[k],
        )) && (!is_symbol(text[k]) ==> c[k] == text[k]) by {
            if k < text.len() - 1 {
                assert(text[k] == t[k]);
            }
        }
    }
}

/// Two machines at the same positions, given the same text, emit the same
/// text and end at the same positions.
pub proof fn lemma_deterministic(a: Enigma, b: Enigma, text: Seq<char>)
    requires
        a.rotors@ == b.rotors@,
        a.reflector == b.reflector,
    ensures
        ciphertext(a.rotors@, a.reflector, text) == ciphertext(b.rotors@, b.reflector, text),
        rotors_after(a.rotors@, text) == rotors_after(b.rotors@, text),
{
}

/// Enciphering a ciphertext from the positions it was made at gives back the
/// text, and the rotors end where they ended the first time.
pub proof fn lemma_cipher_involution(rs: Seq<Rotor>, refl: Reflector, text: Seq<char>)
    requires
        rotors_wf(rs),
        refl.wf(),
    ensures
        ciphertext(rs, refl, ciphertext(rs, refl, text)) == text,
        rotors_after(rs, ciphertext(rs, refl, text)) == rotors_after(rs, text),
    decreases text.len(),
{
    if text.len() > 0 {
        let t = text.drop_last();
        let x = text.last();
        lemma_cipher_involution(rs, refl, t);
        lemma_alphabet_closure(rs, refl, t);
        let r = rotors_after(rs, t);
        let c0 = ciphertext(rs, refl, t);
        let y = cipher_symbol(r, refl, x);
        let c = ciphertext(rs, refl, text);
        assert(c == c0.push(y));
        assert(c.drop_last() =~= c0);
        assert(c.last() == y);
        if is_symbol(x) {
            let i = index_of(x);
            lemma_encipher_involution(r, refl, i);
            let e = encipher_index(r, refl, i);
            lemma_symbol_of(e, x);
            lemma_symbol_of(i, x);
            assert(is_symbol(y) && index_of(y) == e);
            assert(cipher_symbol(r, refl, y) == x);
        }
        assert(ciphertext(rs, refl, c) =~= t.push(x));
        assert(t.push(x) =~= text);
    }
}

/// Relies on String::push: the character is appended at the end.
#[verifier::external_body]
fn push_char(s: &mut String, c: char)
    ensures
        final(s)@ == old(s)@.push(c),
{
    s.push(c);
}

} // verus!
