use vstd::prelude::*;

use crate::alphabet::{is_permutation, Permutation, ALPHABET_SIZE};

verus! {

/// `r` pairs `p[k]` with `p[25 - k]` for every `k`.
pub open spec fn reflector_built_from(r: Reflector, p: Seq<usize>) -> bool {
    forall|k: int| 0 <= k < 26 ==> #[trigger] r.wiring@[p[k] as int] == p[25 - k]
}

/// A reflector: a wiring that pairs up the contacts.
#[derive(Clone, Copy, Debug)]
pub struct Reflector {
    pub wiring: Permutation,
}

impl Reflector {
    /// The wiring is an involution without fixed points.
    pub open spec fn wf(&self) -> bool {
        forall|i: int|
            0 <= i < 26 ==> {
                &&& #[trigger] self.wiring@[i] < 26
                &&& self.wiring@[self.wiring@[i] as int] == i
                &&& self.wiring@[i] != i
            }
    }

    /// Pairs `p[k]` with `p[25 - k]` for every `k`.
    pub fn from(p: Permutation) -> (r: Reflector)
        requires
            is_permutation(p@),
        ensures
            r.wf(),
            reflector_built_from(r, p@),
    {
        let mut r = p;
        let mut k: usize = 0;
        while k < ALPHABET_SIZE
            invariant
                0 <= k <= ALPHABET_SIZE,
                is_permutation(p@),
                forall|m: int| 0 <= m < k ==> #[trigger] r@[p@[m] as int] == p@[25 - m],
                forall|m: int| 0 <= m < k ==> #[trigger] r@[p@[25 - m] as int] == p@[m],
            decreases ALPHABET_SIZE - k,
        {
            let a = p[k];
            let b = p[ALPHABET_SIZE - 1 - k];
            r[a] = b;
            r[b] = a;
            assert forall|m: int| 0 <= m < k + 1 implies #[trigger] r@[p@[m] as int] == p@[25 - m] by {
                if m < k {
                    assert(p@[m] != p@[k as int]);
                }
            }
            assert forall|m: int| 0 <= m < k + 1 implies #[trigger] r@[p@[25 - m] as int] == p@[m] by {
                if m < k {
                    assert(p@[25 - m] != p@[25 - k]);
                }
            }
            k = k + 1;
        }
        let res = Reflector { wiring: r };
        proof {
            assert forall|i: int| 0 <= i < 26 implies {
                &&& #[trigger] res.wiring@[i] < 26
                &&& res.wiring@[res.wiring@[i] as int] == i
                &&& res.wiring@[i] != i
            } by {
                assert(crate::alphabet::occurs_in(p@, 26, i));
                let m = choose|m: int| 0 <= m < 26 && p@[m] == i;
                assert(r@[p@[m] as int] == p@[25 - m]);
                assert(r@[p@[25 - m] as int] == p@[25 - (25 - m)]);
                assert(p@[25 - m] != p@[m]);
            }
        }
        res
    }

    /// The contact that the reflector wires `i` to.
    pub fn reflect(&self, i: usize) -> (r: usize)
        requires
            self.wf(),
            i < ALPHABET_SIZE,
        ensures
            r == self.wiring@[i as int],
            r < ALPHABET_SIZE,
    {
        self.wiring[i]
    }
}

/// Reflecting twice returns the contact, and no contact is reflected onto
/// itself.
pub proof fn lemma_reflect_involution(r: Reflector, i: int)
    requires
        r.wf(),
        0 <= i < 26,
    ensures
        r.wiring@[r.wiring@[i] as int] == i,
        r.wiring@[i] != i,
{
}

} // verus!
