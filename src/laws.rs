//! Laws of the cipher, stated over the model and proved.
use vstd::prelude::*;

use crate::model::{
    Rc4View, advance, identity_perm, initial_state, is_permutation, keystream, ksa_rounds,
    lemma_advance_keeps_permutation, lemma_identity_is_permutation, lemma_swap_keeps_permutation,
    prga_byte, transform,
};

verus! {

/// Every round of the key schedule leaves a permutation.
pub proof fn lemma_ksa_rounds_keep_permutation(key: Seq<u8>, n: nat)
    requires
        key.len() > 0,
        n <= 256,
    ensures
        is_permutation(ksa_rounds(key, n).0),
    decreases n,
{
    if n == 0 {
        lemma_identity_is_permutation();
        assert(ksa_rounds(key, 0).0 == identity_perm());
    } else {
        lemma_ksa_rounds_keep_permutation(key, (n - 1) as nat);
        let (s, j) = ksa_rounds(key, (n - 1) as nat);
        let k = (n - 1) as int;
        let j2 = ((j + s[k] + key[k % (key.len() as int)]) % 256) as u8;
        lemma_swap_keeps_permutation(s, k, j2 as int);
    }
}

/// The permutation of a state built from a valid key is a permutation of the
/// 256 byte values, and stays one however many bytes are then processed.
pub proof fn lemma_permutation_invariant(key: Seq<u8>, n: nat)
    requires
        5 <= key.len() <= 256,
    ensures
        is_permutation(initial_state(key).perm),
        is_permutation(advance(initial_state(key), n).perm),
{
    lemma_ksa_rounds_keep_permutation(key, 256);
    lemma_advance_keeps_permutation(initial_state(key), n);
}

/// Stepping `m` times and then `n` times is stepping `m + n` times.
pub proof fn lemma_advance_add(st: Rc4View, m: nat, n: nat)
    ensures
        advance(advance(st, m), n) == advance(st, m + n),
    decreases n,
{
    if n > 0 {
        lemma_advance_add(st, m, (n - 1) as nat);
    }
}

/// The output has as many bytes as the input.
pub proof fn lemma_length_preserved(st: Rc4View, input: Seq<u8>)
    ensures
        transform(st, input).len() == input.len(),
{
}

/// From one state, processing the output of the cipher gives the input back:
/// the same keystream is combined twice, and exclusive-or undoes itself.
pub proof fn lemma_transform_self_inverse(st: Rc4View, b: Seq<u8>)
    ensures
        transform(st, transform(st, b)) == b,
{
    let c = transform(st, b);
    assert forall|k: int| 0 <= k < b.len() implies #[trigger] transform(st, c)[k] == b[k] by {
        let x = b[k];
        let s = prga_byte(advance(st, k as nat));
        assert(s ^ (s ^ x) == x) by (bit_vector);
    }
    assert(transform(st, c) =~= b);
}

/// Encrypting with a state built from `key` and decrypting with another state
/// built from the same key recovers the input.
pub proof fn lemma_round_trip(key: Seq<u8>, b: Seq<u8>)
    requires
        5 <= key.len() <= 256,
    ensures
        transform(initial_state(key), transform(initial_state(key), b)) == b,
{
    lemma_transform_self_inverse(initial_state(key), b);
}

/// On an all-zero input the output is the keystream itself.
pub proof fn lemma_zero_input_gives_keystream(st: Rc4View, n: nat)
    ensures
        transform(st, Seq::new(n, |k: int| 0u8)) == keystream(st, n),
{
    let z = Seq::new(n, |k: int| 0u8);
    assert forall|k: int| 0 <= k < n implies #[trigger] transform(st, z)[k] == keystream(st, n)[k] by {
        let s = prga_byte(advance(st, k as nat));
        assert(s ^ 0u8 == s) by (bit_vector);
    }
    assert(transform(st, z) =~= keystream(st, n));
}

/// Two states built from the same key give the same bytes for all-zero
/// inputs of the same length: the keystream of that key.
pub proof fn lemma_determinism(key1: Seq<u8>, key2: Seq<u8>, n: nat)
    requires
        5 <= key1.len() <= 256,
        key1 == key2,
    ensures
        transform(initial_state(key1), Seq::new(n, |k: int| 0u8)) == transform(
            initial_state(key2),
            Seq::new(n, |k: int| 0u8),
        ),
        transform(initial_state(key1), Seq::new(n, |k: int| 0u8)) == keystream(
            initial_state(key1),
            n,
        ),
{
    lemma_zero_input_gives_keystream(initial_state(key1), n);
}

/// Processing `a` and then `b` with the same state gives what processing
/// `a + b` at once gives: the keystream continues across calls.
pub proof fn lemma_apply_in_pieces(st: Rc4View, a: Seq<u8>, b: Seq<u8>)
    ensures
        transform(st, a + b) == transform(st, a) + transform(advance(st, a.len()), b),
        advance(advance(st, a.len()), b.len()) == advance(st, (a + b).len()),
{
    let whole = transform(st, a + b);
    let parts = transform(st, a) + transform(advance(st, a.len()), b);
    assert forall|k: int| 0 <= k < whole.len() implies #[trigger] whole[k] == parts[k] by {
        if k >= a.len() {
            lemma_advance_add(st, a.len(), (k - a.len()) as nat);
        }
    }
    assert(whole =~= parts);
    lemma_advance_add(st, a.len(), b.len());
}

} // verus!
