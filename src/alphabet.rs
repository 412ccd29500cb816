use vstd::prelude::*;

verus! {

/// Number of symbols in the alphabet.
pub const ALPHABET_SIZE: usize = 26;

/// A wiring table: position `i` is wired to `p[i]`.
pub type Permutation = [usize; ALPHABET_SIZE];

/// `c` is one of the lowercase letters `a` to `z`.
pub open spec fn is_symbol(c: char) -> bool {
    'a' as u32 <= c as u32 && c as u32 <= 'z' as u32
}

/// The alphabet index of a symbol.
pub open spec fn index_of(c: char) -> int {
    c as u32 - 'a' as u32
}

/// The symbol whose alphabet index is `u`.
pub open spec fn symbol_of(u: int) -> char {
    choose|c: char| is_symbol(c) && index_of(c) == u
}

/// Every value in `0..26` appears in `p` exactly once.
pub open spec fn is_permutation(p: Seq<usize>) -> bool {
    &&& p.len() == ALPHABET_SIZE
    &&& forall|i: int| 0 <= i < ALPHABET_SIZE ==> #[trigger] p[i] < ALPHABET_SIZE
    &&& forall|i: int, j: int| 0 <= i < ALPHABET_SIZE && 0 <= j < ALPHABET_SIZE && i != j
        ==> #[trigger] p[i] != #[trigger] p[j]
    &&& forall|v: int| 0 <= v < ALPHABET_SIZE ==> #[trigger] occurs_in(p, ALPHABET_SIZE as int, v)
}

/// `v` stands in one of the first `n` positions of `p`.
pub open spec fn occurs_in(p: Seq<usize>, n: int, v: int) -> bool {
    exists|i: int| 0 <= i < n && p[i] == v
}

/// The symbol of an alphabet index.
pub fn u2c(u: usize) -> (c: char)
    requires
        u < ALPHABET_SIZE,
    ensures
        is_symbol(c),
        index_of(c) == u,
        c == symbol_of(u as int),
{
    let c = ((u as u8) + 97u8) as char;
    proof {
        let d = symbol_of(u as int);
        assert(is_symbol(c) && index_of(c) == u);
        assert(d as u32 == c as u32);
    }
    c
}

/// Decides whether `c` is one of the lowercase letters.
pub fn is_lowercase_symbol(c: char) -> (r: bool)
    ensures
        r == is_symbol(c),
{
    'a' as u32 <= c as u32 && c as u32 <= 'z' as u32
}

/// The alphabet index of a symbol.
pub fn c2u(c: char) -> (u: usize)
    requires
        is_symbol(c),
    ensures
        u == index_of(c),
        u < ALPHABET_SIZE,
{
    (c as u32 - 'a' as u32) as usize
}

/// Decides whether a wiring table is a bijection on `0..26`.
pub fn check_permutation(p: &Permutation) -> (r: bool)
    ensures
        r == is_permutation(p@),
{
    let mut seen: [bool; ALPHABET_SIZE] = [false; ALPHABET_SIZE];
    let mut i: usize = 0;
    while i < ALPHABET_SIZE
        invariant
            0 <= i <= ALPHABET_SIZE,
            forall|k: int| 0 <= k < i ==> #[trigger] p@[k] < ALPHABET_SIZE,
            forall|a: int, b: int| 0 <= a < i && 0 <= b < i && a != b ==> #[trigger] p@[a] != #[trigger] p@[b],
            forall|v: int| 0 <= v < ALPHABET_SIZE ==> (seen@[v] <==> #[trigger] occurs_in(p@, i as int, v)),
        decreases ALPHABET_SIZE - i,
    {
        let v = p[i];
        if v >= ALPHABET_SIZE {
            assert(p@[i as int] >= ALPHABET_SIZE);
            return false;
        }
        if seen[v] {
            proof {
                assert(occurs_in(p@, i as int, v as int));
                let k = choose|k: int| 0 <= k < i && p@[k] == v;
                assert(p@[k] == p@[i as int]);
            }
            return false;
        }
        assert forall|k: int| 0 <= k < i implies p@[k] != p@[i as int] by {
            if p@[k] == v {
                assert(occurs_in(p@, i as int, v as int));
            }
        }
        let ghost before = seen@;
        seen[v] = true;
        assert forall|w: int| 0 <= w < ALPHABET_SIZE implies (seen@[w] <==> #[trigger] occurs_in(p@, i + 1, w)) by {
            if w == v {
                assert(p@[i as int] == w);
            } else {
                assert(seen@[w] == before[w]);
                if occurs_in(p@, i as int, w) {
                    let k = choose|k: int| 0 <= k < i && p@[k] == w;
                    assert(0 <= k < i + 1 && p@[k] == w);
                }
                if occurs_in(p@, i + 1, w) {
                    let k = choose|k: int| 0 <= k < i + 1 && p@[k] == w;
                    assert(0 <= k < i && p@[k] == w);
                }
            }
        }
        i = i + 1;
    }
    let mut v: usize = 0;
    while v < ALPHABET_SIZE
        invariant
            0 <= v <= ALPHABET_SIZE,
            forall|k: int| 0 <= k < ALPHABET_SIZE ==> #[trigger] p@[k] < ALPHABET_SIZE,
            forall|a: int, b: int| 0 <= a < ALPHABET_SIZE && 0 <= b < ALPHABET_SIZE && a != b ==> #[trigger] p@[a] != #[trigger] p@[b],
            forall|w: int| 0 <= w < ALPHABET_SIZE ==> (seen@[w] <==> #[trigger] occurs_in(p@, ALPHABET_SIZE as int, w)),
            forall|w: int| 0 <= w < v ==> #[trigger] seen@[w],
        decreases ALPHABET_SIZE - v,
    {
        if !seen[v] {
            assert(!occurs_in(p@, ALPHABET_SIZE as int, v as int));
            return false;
        }
        v = v + 1;
    }
    true
}

} // verus!
