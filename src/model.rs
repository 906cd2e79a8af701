//! The mathematical model of the cipher: its abstract state, the key
//! schedule, one generator step, and what `apply` produces.
use vstd::prelude::*;

verus! {

/// The abstract state of a cipher: the two cursors and the permutation.
pub ghost struct Rc4View {
    pub i: u8,
    pub j: u8,
    pub perm: Seq<u8>,
}

/// `s` with the entries at `a` and `b` exchanged.
pub open spec fn swap_at(s: Seq<u8>, a: int, b: int) -> Seq<u8> {
    s.update(a, s[b]).update(b, s[a])
}

/// Each byte value occurs exactly once among the 256 entries of `s`.
pub open spec fn is_permutation(s: Seq<u8>) -> bool {
    &&& s.len() == 256
    &&& forall|a: int, b: int|
        0 <= a < 256 && 0 <= b < 256 && a != b ==> #[trigger] s[a] != #[trigger] s[b]
    &&& forall|v: u8| #[trigger] s.contains(v)
}

/// The identity permutation `0, 1, ..., 255`.
pub open spec fn identity_perm() -> Seq<u8> {
    Seq::new(256, |k: int| k as u8)
}

/// The cursor `j` and the permutation after the first `n` rounds of the key
/// schedule: round `k` adds `perm[k]` and `key[k % (key.len() as int)]` to `j`
/// modulo 256, then exchanges `perm[k]` and `perm[j]`.
pub open spec fn ksa_rounds(key: Seq<u8>, n: nat) -> (Seq<u8>, u8)
    decreases n,
{
    if n == 0 {
        (identity_perm(), 0u8)
    } else {
        let (s, j) = ksa_rounds(key, (n - 1) as nat);
        let k = (n - 1) as int;
        let j2 = ((j + s[k] + key[k % (key.len() as int)]) % 256) as u8;
        (swap_at(s, k, j2 as int), j2)
    }
}

/// The state that the key schedule builds from `key`: all 256 rounds, then
/// both cursors reset to zero.
pub open spec fn initial_state(key: Seq<u8>) -> Rc4View {
    Rc4View { i: 0, j: 0, perm: ksa_rounds(key, 256).0 }
}

/// One step of the generator: `i` moves on by one, `j` by `perm[i]`, both
/// modulo 256, and `perm[i]` and `perm[j]` are exchanged.
pub open spec fn prga_step(st: Rc4View) -> Rc4View {
    let i = ((st.i + 1) % 256) as u8;
    let j = ((st.j + st.perm[i as int]) % 256) as u8;
    Rc4View { i, j, perm: swap_at(st.perm, i as int, j as int) }
}

/// The keystream byte that the step from `st` emits:
/// `perm[(perm[i] + perm[j]) % 256]`, read after the step.
pub open spec fn prga_byte(st: Rc4View) -> u8 {
    let t = prga_step(st);
    t.perm[(t.perm[t.i as int] + t.perm[t.j as int]) % 256]
}

/// The state after `n` steps of the generator from `st`.
pub open spec fn advance(st: Rc4View, n: nat) -> Rc4View
    decreases n,
{
    if n == 0 {
        st
    } else {
        prga_step(advance(st, (n - 1) as nat))
    }
}

/// The first `n` keystream bytes generated from `st`.
pub open spec fn keystream(st: Rc4View, n: nat) -> Seq<u8> {
    Seq::new(n, |k: int| prga_byte(advance(st, k as nat)))
}

/// What `apply` writes for `input` from state `st`: each byte combined by
/// exclusive-or with the keystream byte at its position.
pub open spec fn transform(st: Rc4View, input: Seq<u8>) -> Seq<u8> {
    Seq::new(input.len(), |k: int| prga_byte(advance(st, k as nat)) ^ input[k])
}

/// Exchanging two entries keeps a permutation a permutation.
pub proof fn lemma_swap_keeps_permutation(s: Seq<u8>, a: int, b: int)
    requires
        is_permutation(s),
        0 <= a < 256,
        0 <= b < 256,
    ensures
        is_permutation(swap_at(s, a, b)),
{
    let t = swap_at(s, a, b);
    assert forall|v: u8| #[trigger] t.contains(v) by {
        assert(s.contains(v));
        let k = choose|k: int| 0 <= k < s.len() && s[k] == v;
        let k2 = if k == a { b } else if k == b { a } else { k };
        assert(t[k2] == v);
    }
}

/// The identity sequence is a permutation.
pub proof fn lemma_identity_is_permutation()
    ensures
        is_permutation(identity_perm()),
{
    let s = identity_perm();
    assert forall|v: u8| #[trigger] s.contains(v) by {
        assert(s[v as int] == v);
    }
}

/// Each generator step keeps the permutation a permutation.
pub proof fn lemma_step_keeps_permutation(st: Rc4View)
    requires
        is_permutation(st.perm),
    ensures
        is_permutation(prga_step(st).perm),
{
    let i = ((st.i + 1) % 256) as u8;
    let j = ((st.j + st.perm[i as int]) % 256) as u8;
    lemma_swap_keeps_permutation(st.perm, i as int, j as int);
}

/// However many bytes the generator emits, the permutation stays a
/// permutation.
pub proof fn lemma_advance_keeps_permutation(st: Rc4View, n: nat)
    requires
        is_permutation(st.perm),
    ensures
        is_permutation(advance(st, n).perm),
    decreases n,
{
    if n > 0 {
        lemma_advance_keeps_permutation(st, (n - 1) as nat);
        lemma_step_keeps_permutation(advance(st, (n - 1) as nat));
    }
}

} // verus!
