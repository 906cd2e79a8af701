//! The executable cipher.
use vstd::prelude::*;

use crate::model::{
    Rc4View, advance, identity_perm, initial_state, is_permutation, ksa_rounds,
    lemma_advance_keeps_permutation, lemma_identity_is_permutation, lemma_swap_keeps_permutation,
    prga_byte, prga_step, swap_at, transform,
};

verus! {

/// Why a cipher could not be built.
#[derive(Debug, Clone, Copy, PartialEq, Eq, Structural)]
pub enum Rc4Error {
    /// The key is shorter than 5 bytes or longer than 256.
    InvalidKeyLength,
}

/// The shortest key accepted, in bytes.
pub const MIN_KEY_LEN: usize = 5;

/// The longest key accepted, in bytes.
pub const MAX_KEY_LEN: usize = 256;

/// The cipher state: a permutation of the 256 byte values and two cursors.
pub struct Rc4 {
    i: u8,
    j: u8,
    state: [u8; 256],
}

impl View for Rc4 {
    type V = Rc4View;

    closed spec fn view(&self) -> Rc4View {
        Rc4View { i: self.i, j: self.j, perm: self.state@ }
    }
}

/// Exchanges the entries of `state` at `a` and `b`.
fn swap_entries(state: &mut [u8; 256], a: usize, b: usize)
    requires
        a < 256,
        b < 256,
    ensures
        final(state)@ == swap_at(old(state)@, a as int, b as int),
{
    let x = state[a];
    let y = state[b];
    state[a] = y;
    state[b] = x;
}

impl Rc4 {
    /// Key-scheduling algorithm: builds the cipher state for `key`, which
    /// must hold 5 to 256 bytes.
    pub fn ksa(key: &[u8]) -> (r: Result<Rc4, Rc4Error>)
        ensures
            r is Ok <==> MIN_KEY_LEN <= key@.len() <= MAX_KEY_LEN,
            r matches Ok(c) ==> c@ == initial_state(key@) && is_permutation(c@.perm),
            r matches Err(e) ==> e == Rc4Error::InvalidKeyLength,
    {
        let len = key.len();
        if len < MIN_KEY_LEN || len > MAX_KEY_LEN {
            return Err(Rc4Error::InvalidKeyLength);
        }
        let mut rc4 = Rc4 { i: 0, j: 0, state: [0u8; 256] };

        let mut n: usize = 0;
        while n < 256
            invariant
                n <= 256,
                rc4.i == 0,
                rc4.j == 0,
                forall|m: int| 0 <= m < n ==> rc4.state@[m] == m as u8,
            decreases 256 - n,
        {
            rc4.state[n] = n as u8;
            n = n + 1;
        }
        proof {
            assert(rc4.state@ =~= identity_perm());
            lemma_identity_is_permutation();
        }

        let mut n: usize = 0;
        while n < 256
            invariant
                n <= 256,
                key@.len() == len,
                MIN_KEY_LEN <= len <= MAX_KEY_LEN,
                rc4.i == 0,
                (rc4.state@, rc4.j) == ksa_rounds(key@, n as nat),
                is_permutation(rc4.state@),
            decreases 256 - n,
        {
            let j = rc4.j;
            let s = rc4.state[n];
            let k = key[n % len];
            let j2 = j.wrapping_add(s).wrapping_add(k);
            assert(j2 == ((j + s + k) % 256) as u8) by (bit_vector)
                requires
                    j2 == j.wrapping_add(s).wrapping_add(k),
            ;
            rc4.j = j2;
            swap_entries(&mut rc4.state, n, j2 as usize);
            proof {
                lemma_swap_keeps_permutation(ksa_rounds(key@, n as nat).0, n as int, j2 as int);
            }
            n = n + 1;
        }

        // Both cursors start from zero when the generator first runs.
        rc4.j = 0;
        Ok(rc4)
    }

    /// A copy of the current permutation.
    pub fn permutation(&self) -> (r: [u8; 256])
        ensures
            r@ == self@.perm,
    {
        self.state
    }

    /// Pseudo-random generation algorithm: advances the state by one step and
    /// returns the keystream byte of that step.
    fn prga(&mut self) -> (r: u8)
        ensures
            final(self)@ == prga_step(old(self)@),
            r == prga_byte(old(self)@),
    {
        let i = self.i.wrapping_add(1u8);
        let si = self.state[i as usize];
        let j = self.j.wrapping_add(si);
        proof {
            let (i0, j0) = (self.i, self.j);
            assert(i == ((i0 + 1) % 256) as u8) by (bit_vector)
                requires
                    i == i0.wrapping_add(1u8),
            ;
            assert(j == ((j0 + si) % 256) as u8) by (bit_vector)
                requires
                    j == j0.wrapping_add(si),
            ;
        }
        self.i = i;
        self.j = j;
        swap_entries(&mut self.state, i as usize, j as usize);
        let a = self.state[i as usize];
        let b = self.state[j as usize];
        let t = a.wrapping_add(b);
        assert(t == ((a + b) % 256) as u8) by (bit_vector)
            requires
                t == a.wrapping_add(b),
        ;
        self.state[t as usize]
    }

    /// Combines each byte of `input` with the next keystream byte by
    /// exclusive-or and writes it to the same position of `output`. The
    /// keystream continues from where the previous call left it.
    pub fn apply(&mut self, input: &[u8], output: &mut [u8])
        requires
            input@.len() == old(output)@.len(),
            is_permutation(old(self)@.perm),
        ensures
            final(output)@.len() == input@.len(),
            final(output)@ == transform(old(self)@, input@),
            final(self)@ == advance(old(self)@, input@.len()),
            is_permutation(final(self)@.perm),
    {
        let ghost start = self@;
        let len = input.len();
        let mut k: usize = 0;
        while k < len
            invariant
                k <= len,
                len == input@.len(),
                output@.len() == len,
                self@ == advance(start, k as nat),
                forall|m: int| 0 <= m < k ==> output@[m] == transform(start, input@)[m],
            decreases len - k,
        {
            let x = self.prga();
            output[k] = x ^ input[k];
            k = k + 1;
        }
        proof {
            assert(output@ =~= transform(start, input@));
            lemma_advance_keeps_permutation(start, len as nat);
        }
    }
}

} // verus!
