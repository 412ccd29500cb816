use vstd::prelude::*;

use crate::alphabet::{is_permutation, Permutation, ALPHABET_SIZE};

verus! {

/// Where a signal entering contact `i` of a rotor at `offset` leaves, given the
/// rotor's difference table `w`.
pub open spec fn relative_map(w: Seq<usize>, offset: int, i: int) -> int {
    (i + w[(i + offset) % 26]) % 26
}

/// `w` and `wb` undo each other: the contact that `w` sends `j` to is sent back
/// to `j` by `wb`.
pub open spec fn undoes(w: Seq<usize>, wb: Seq<usize>) -> bool {
    forall|j: int|
        0 <= j < 26 ==> #[trigger] wb[(j + w[j]) % 26] == (26 + j - (j + w[j]) % 26) % 26
}

/// `r` is the rotor at offset 0 made from wiring table `p` and `notch`: each
/// table entry is the shift, modulo 26, from a contact to the one it is wired
/// to, forwards and backwards.
pub open spec fn built_from(r: Rotor, p: Seq<usize>, notch: usize) -> bool {
    &&& r.offset == 0
    &&& r.notch == notch
    &&& forall|i: int| 0 <= i < 26 ==> #[trigger] r.wiring@[i] == (26 + p[i] - i) % 26
    &&& forall|i: int| 0 <= i < 26 ==> #[trigger] r.wiring_backward@[p[i] as int] == (26 + i - p[i]) % 26
}

/// A rotor: its wiring kept as the shift from each contact to the one it is
/// wired to, so that turning the rotor never rebuilds a table.
#[derive(Clone, Copy, Debug)]
pub struct Rotor {
    pub wiring: Permutation,
    pub wiring_backward: Permutation,
    pub offset: usize,
    pub notch: usize,
}

impl Rotor {
    /// The two tables hold shifts that undo each other, and the offset and
    /// notch are positions of the alphabet.
    pub open spec fn wf(&self) -> bool {
        &&& self.offset < 26
        &&& self.notch < 26
        &&& forall|j: int| 0 <= j < 26 ==> #[trigger] self.wiring@[j] < 26
        &&& forall|j: int| 0 <= j < 26 ==> #[trigger] self.wiring_backward@[j] < 26
        &&& undoes(self.wiring@, self.wiring_backward@)
        &&& undoes(self.wiring_backward@, self.wiring@)
    }

    pub open spec fn spec_forward(&self, i: int) -> int {
        relative_map(self.wiring@, self.offset as int, i)
    }

    pub open spec fn spec_backward(&self, i: int) -> int {
        relative_map(self.wiring_backward@, self.offset as int, i)
    }

    /// Builds a rotor at offset 0 from a wiring table and a notch position.
    pub fn from(p: Permutation, notch: usize) -> (r: Rotor)
        requires
            is_permutation(p@),
            notch < ALPHABET_SIZE,
        ensures
            r.wf(),
            built_from(r, p@, notch),
    {
        let mut r = Rotor { wiring: p, wiring_backward: p, offset: 0, notch: notch };
        let mut i: usize = 0;
        while i < ALPHABET_SIZE
            invariant
                0 <= i <= ALPHABET_SIZE,
                is_permutation(p@),
                r.offset == 0,
                r.notch == notch,
                forall|k: int| 0 <= k < i ==> #[trigger] r.wiring@[k] == (26 + p@[k] - k) % 26,
                forall|k: int| 0 <= k < i ==> #[trigger] r.wiring_backward@[p@[k] as int] == (26 + k - p@[k]) % 26,
            decreases ALPHABET_SIZE - i,
        {
            let v = p[i];
            assert(v < 26);
            r.wiring[i] = (ALPHABET_SIZE + v - i) % ALPHABET_SIZE;
            let ghost before = r.wiring_backward@;
            r.wiring_backward[v] = (ALPHABET_SIZE + i - v) % ALPHABET_SIZE;
            assert forall|k: int| 0 <= k < i + 1 implies #[trigger] r.wiring_backward@[p@[k] as int]
                == (26 + k - p@[k]) % 26 by {
                if k < i {
                    assert(p@[k] != p@[i as int]);
                }
            }
            i = i + 1;
        }
        proof {
            assert forall|j: int| 0 <= j < 26 implies #[trigger] r.wiring@[j] < 26 by {}
            assert forall|j: int| 0 <= j < 26 implies #[trigger] r.wiring_backward@[j] < 26 by {
                assert(crate::alphabet::occurs_in(p@, 26, j));
            }
            assert forall|j: int| 0 <= j < 26 implies #[trigger] r.wiring_backward@[(j + r.wiring@[j]) % 26]
                == (26 + j - (j + r.wiring@[j]) % 26) % 26 by {
                assert((j + r.wiring@[j]) % 26 == p@[j]);
            }
            assert forall|k: int| 0 <= k < 26 implies #[trigger] r.wiring@[(k + r.wiring_backward@[k]) % 26]
                == (26 + k - (k + r.wiring_backward@[k]) % 26) % 26 by {
                assert(crate::alphabet::occurs_in(p@, 26, k));
                let j = choose|j: int| 0 <= j < 26 && p@[j] == k;
                assert(r.wiring_backward@[p@[j] as int] == (26 + j - p@[j]) % 26);
                assert((k + r.wiring_backward@[k]) % 26 == j);
            }
        }
        r
    }

    /// The contact that a signal entering at `i` leaves from, on its way
    /// towards the reflector.
    pub fn forward(&self, i: usize) -> (r: usize)
        requires
            self.wf(),
            i < ALPHABET_SIZE,
        ensures
            r == self.spec_forward(i as int),
            r < ALPHABET_SIZE,
    {
        (i + self.wiring[(i + self.offset) % ALPHABET_SIZE]) % ALPHABET_SIZE
    }

    /// The contact that a signal entering at `i` leaves from, on its way back
    /// from the reflector.
    pub fn backward(&self, i: usize) -> (r: usize)
        requires
            self.wf(),
            i < ALPHABET_SIZE,
        ensures
            r == self.spec_backward(i as int),
            r < ALPHABET_SIZE,
    {
        (i + self.wiring_backward[(i + self.offset) % ALPHABET_SIZE]) % ALPHABET_SIZE
    }
}

/// At any offset, passing back through a rotor undoes passing forward through
/// it, and the other way round.
pub proof fn lemma_rotor_round_trip(r: Rotor, i: int)
    requires
        r.wf(),
        0 <= i < 26,
    ensures
        0 <= r.spec_forward(i) < 26,
        0 <= r.spec_backward(i) < 26,
        r.spec_backward(r.spec_forward(i)) == i,
        r.spec_forward(r.spec_backward(i)) == i,
{
    let o = r.offset as int;
    let j = (i + o) % 26;
    let d = r.wiring@[j] as int;
    assert(r.wiring_backward@[(j + d) % 26] == (26 + j - (j + d) % 26) % 26);
    lemma_shift_cancels(i, o, d);
    let db = r.wiring_backward@[j] as int;
    assert(r.wiring@[(j + db) % 26] == (26 + j - (j + db) % 26) % 26);
    lemma_shift_cancels(i, o, db);
}

/// Shifting contact `i` by `d` and then by the shift that undoes `d` at the
/// rotated position returns to `i`.
proof fn lemma_shift_cancels(i: int, o: int, d: int)
    requires
        0 <= i < 26,
        0 <= o < 26,
        0 <= d < 26,
    ensures
        0 <= (i + d) % 26 < 26,
        ((i + d) % 26 + o) % 26 == ((i + o) % 26 + d) % 26,
        ((i + d) % 26 + (26 + (i + o) % 26 - ((i + o) % 26 + d) % 26) % 26) % 26 == i,
{
    let j = (i + o) % 26;
    assert(j == i + o || j == i + o - 26);
    let f = (i + d) % 26;
    assert(f == i + d || f == i + d - 26);
    let p = (j + d) % 26;
    assert(p == j + d || p == j + d - 26);
}

} // verus!
