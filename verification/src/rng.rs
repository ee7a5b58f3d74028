use vstd::prelude::*;

verus! {

pub const PCG_MULTIPLIER: u128 = 0x2360ED051FC65DA44385DF649FCCF645;

/// 2 to the power 128, the modulus of the generator's state.
pub open spec fn state_modulus() -> nat {
    0x1_0000_0000_0000_0000_0000_0000_0000_0000nat
}

/// One step of the 128-bit linear congruential generator: `state * multiplier + increment`, modulo 2^128.
pub open spec fn pcg_step(state: u128, increment: u128) -> u128 {
    (((state as nat * PCG_MULTIPLIER as nat) % state_modulus() + increment as nat)
        % state_modulus()) as u128
}

/// Rotation of a 64-bit word to the right by `rot` places (`rot` below 64).
pub open spec fn rotate_right_64(x: u64, rot: u32) -> u64 {
    if rot == 0 {
        x
    } else {
        (x >> rot) | (x << ((64 - rot) as u32))
    }
}

/// The XSL-RR output function: the xor of the state's two halves, rotated right by the state's top six bits.
pub open spec fn output_xsl_rr(state: u128) -> u64 {
    rotate_right_64(((state >> 64u32) ^ state) as u64, ((state >> 122u32) & 0x3f) as u32)
}

/// The state that a generator seeded with `base_seed` and `stream` starts from.
pub open spec fn seeded_state(base_seed: u64, stream: u64) -> u128 {
    pcg_step(((base_seed as nat + stream as nat * 0x1_0000_0000_0000_0000nat + 1) % state_modulus()) as u128, 1)
}

/// A permuted congruential generator with 128 bits of state and 64-bit output.
#[derive(Clone, Debug)]
pub struct Pcg64 {
    state: u128,
    increment: u128,
}

impl Pcg64 {
    pub closed spec fn spec_state(&self) -> u128 {
        self.state
    }

    pub closed spec fn spec_increment(&self) -> u128 {
        self.increment
    }

    /// The generator state after `n` more outputs.
    pub open spec fn state_after(state: u128, increment: u128, n: nat) -> u128
        decreases n,
    {
        if n == 0 {
            state
        } else {
            pcg_step(Self::state_after(state, increment, (n - 1) as nat), increment)
        }
    }

    pub fn from_seed(base_seed: u64, stream: u64) -> (rng: Self)
        ensures
            rng.spec_state() == seeded_state(base_seed, stream),
            rng.spec_increment() == 1,
    {
        let mut state = (base_seed as u128) | ((stream as u128) << 64u32);
        proof {
            lemma_join_halves(base_seed, stream);
        }
        let increment = 1u128;
        state = state.wrapping_add(increment);
        let mut rng = Self { state, increment };
        rng.step();
        rng
    }

    fn step(&mut self)
        ensures
            final(self).state == pcg_step(old(self).state, old(self).increment),
            final(self).increment == old(self).increment,
    {
        self.state = self.state.wrapping_mul(PCG_MULTIPLIER).wrapping_add(self.increment);
    }

    fn output(state: u128) -> (out: u64)
        ensures
            out == output_xsl_rr(state),
    {
        let masked = (state >> 122u32) & 0x3f;
        assert(masked <= 0x3f) by (bit_vector)
            requires
                masked == (state >> 122u32) & 0x3f,
        ;
        let rot = masked as u32;
        let xsl = ((state >> 64u32) ^ state) as u64;
        if rot == 0 {
            xsl
        } else {
            (xsl >> rot) | (xsl << (64 - rot))
        }
    }

    /// A generator in the same state as this one, to look ahead at its outputs.
    pub fn fork(&self) -> (copy: Self)
        ensures
            copy.spec_state() == self.spec_state(),
            copy.spec_increment() == self.spec_increment(),
    {
        Pcg64 { state: self.state, increment: self.increment }
    }

    pub fn next_u64(&mut self) -> (out: u64)
        ensures
            final(self).spec_state() == pcg_step(old(self).spec_state(), old(self).spec_increment()),
            final(self).spec_increment() == old(self).spec_increment(),
            out == output_xsl_rr(final(self).spec_state()),
    {
        self.step();
        Self::output(self.state)
    }

    /// Byte `i` of the byte stream: byte `i % 8`, least significant first, of the output drawn `i / 8 + 1`
    /// steps after `state`.
    pub open spec fn stream_byte(state: u128, increment: u128, i: int) -> u8 {
        ((output_xsl_rr(Self::state_after(state, increment, (i / 8 + 1) as nat)) >> ((8 * (i % 8)) as u64)) & 0xff) as u8
    }

    /// Fills `dest` with the byte stream, drawing one output for each started run of eight bytes.
    pub fn fill_bytes(&mut self, dest: &mut [u8])
        ensures
            final(dest)@.len() == old(dest)@.len(),
            forall|i: int| 0 <= i < old(dest)@.len() ==> #[trigger] final(dest)@[i] == Self::stream_byte(
                old(self).spec_state(),
                old(self).spec_increment(),
                i,
            ),
            final(self).spec_state() == Self::state_after(
                old(self).spec_state(),
                old(self).spec_increment(),
                ((old(dest)@.len() + 7) / 8) as nat,
            ),
            final(self).spec_increment() == old(self).spec_increment(),
    {
        let ghost start = self.state;
        let ghost len = dest@.len();
        let mut idx: usize = 0;
        let ghost mut words: nat = 0;
        while idx < dest.len()
            invariant
                dest@.len() == len,
                idx <= len,
                idx == 8 * words || (idx == len && len <= 8 * words),
                words == (idx + 7) / 8,
                self.increment == old(self).increment,
                start == old(self).state,
                self.state == Self::state_after(start, self.increment, words),
                forall|i: int| 0 <= i < idx ==> #[trigger] dest@[i] == Self::stream_byte(start, self.increment, i),
            decreases len - idx,
        {
            let value = self.next_u64();
            proof {
                words = words + 1;
            }
            let remaining = dest.len() - idx;
            let take = if remaining < 8 { remaining } else { 8 };
            let mut b: usize = 0;
            while b < take
                invariant
                    dest@.len() == len,
                    idx + take <= len,
                    take <= 8,
                    b <= take,
                    idx == 8 * (words - 1),
                    value == output_xsl_rr(Self::state_after(start, self.increment, words)),
                    forall|i: int| 0 <= i < idx + b ==> #[trigger] dest@[i] == Self::stream_byte(start, self.increment, i),
                decreases take - b,
            {
                let byte = ((value >> ((8 * b) as u64)) & 0xff) as u8;
                dest[idx + b] = byte;
                proof {
                    let i = (idx + b) as int;
                    assert(i / 8 == words - 1 && i % 8 == b) by (nonlinear_arith)
                        requires
                            idx == 8 * (words - 1),
                            i == idx + b,
                            b < 8,
                    ;
                }
                b = b + 1;
            }
            idx = idx + take;
        }
        proof {
            assert(words == (len + 7) / 8);
        }
    }

    pub fn next_u32(&mut self) -> (out: u32)
        ensures
            final(self).spec_state() == pcg_step(old(self).spec_state(), old(self).spec_increment()),
            final(self).spec_increment() == old(self).spec_increment(),
            out == output_xsl_rr(final(self).spec_state()) as u32,
    {
        self.next_u64() as u32
    }
}

proof fn lemma_join_halves(low: u64, high: u64)
    ensures
        (low as u128) | ((high as u128) << 64u32) == low as nat + high as nat * 0x1_0000_0000_0000_0000nat,
{
    let l = low as u128;
    let h = high as u128;
    assert(l | (h << 64u32) == l + h * 0x1_0000_0000_0000_0000u128) by (bit_vector)
        requires
            l < 0x1_0000_0000_0000_0000u128,
            h < 0x1_0000_0000_0000_0000u128,
    ;
}

pub fn rng_for_stream(base_seed: u64, stream: u64) -> (rng: Pcg64)
    ensures
        rng.spec_state() == seeded_state(base_seed, stream),
        rng.spec_increment() == 1,
{
    Pcg64::from_seed(base_seed, stream)
}

/// The next output reduced modulo `modulus`; a zero modulus gives zero and draws nothing.
pub fn next_u64_mod(rng: &mut Pcg64, modulus: u64) -> (out: u64)
    ensures
        modulus == 0 ==> out == 0 && *final(rng) == *old(rng),
        modulus != 0 ==> {
            &&& final(rng).spec_state() == pcg_step(old(rng).spec_state(), old(rng).spec_increment())
            &&& final(rng).spec_increment() == old(rng).spec_increment()
            &&& out == output_xsl_rr(final(rng).spec_state()) % modulus
            &&& out < modulus
        },
{
    if modulus == 0 {
        return 0;
    }
    rng.next_u64() % modulus
}

pub fn roll_die(rng: &mut Pcg64) -> (face: u8)
    ensures
        final(rng).spec_state() == pcg_step(old(rng).spec_state(), old(rng).spec_increment()),
        final(rng).spec_increment() == old(rng).spec_increment(),
        face == output_xsl_rr(final(rng).spec_state()) % 6 + 1,
        1 <= face <= 6,
{
    (next_u64_mod(rng, 6) + 1) as u8
}


/// Positions `i`, `i - 1`, ..., `1` of a Fisher-Yates pass: each swaps with a position drawn below or at it.
/// Gives the items and the generator state afterwards.
pub open spec fn fisher_yates<T>(items: Seq<T>, state: u128, increment: u128, i: nat) -> (Seq<T>, u128)
    decreases i,
{
    if i == 0 {
        (items, state)
    } else {
        let next = pcg_step(state, increment);
        let j = (output_xsl_rr(next) as nat % (i + 1)) as int;
        let swapped = items.update(i as int, items[j]).update(j, items[i as int]);
        fisher_yates(swapped, next, increment, (i - 1) as nat)
    }
}

/// The shuffle of `items` from generator state `state`, and the state afterwards.
pub open spec fn shuffled<T>(items: Seq<T>, state: u128, increment: u128) -> (Seq<T>, u128) {
    if items.len() < 2 {
        (items, state)
    } else {
        fisher_yates(items, state, increment, (items.len() - 1) as nat)
    }
}

pub fn shuffle_with_rng<T: Copy>(items: &mut [T], rng: &mut Pcg64)
    ensures
        (final(items)@, final(rng).spec_state()) == shuffled(
            old(items)@,
            old(rng).spec_state(),
            old(rng).spec_increment(),
        ),
        final(rng).spec_increment() == old(rng).spec_increment(),
{
    let len = items.len();
    if len < 2 {
        return;
    }
    let ghost target = shuffled(old(items)@, old(rng).spec_state(), old(rng).spec_increment());
    let mut i = len - 1;
    while i >= 1
        invariant
            i < len,
            len == items@.len(),
            rng.spec_increment() == old(rng).spec_increment(),
            fisher_yates(items@, rng.spec_state(), rng.spec_increment(), i as nat) == target,
        decreases i,
    {
        let j = next_u64_mod(rng, (i + 1) as u64) as usize;
        let a = items[i];
        let b = items[j];
        items[i] = b;
        items[j] = a;
        i = i - 1;
    }
}


/// A Fisher-Yates pass keeps the number of items.
pub proof fn lemma_fisher_yates_len<T>(items: Seq<T>, state: u128, increment: u128, i: nat)
    requires
        i < items.len(),
    ensures
        fisher_yates(items, state, increment, i).0.len() == items.len(),
    decreases i,
{
    if i > 0 {
        let next = pcg_step(state, increment);
        let j = (output_xsl_rr(next) as nat % (i + 1)) as int;
        let swapped = items.update(i as int, items[j]).update(j, items[i as int]);
        lemma_fisher_yates_len(swapped, next, increment, (i - 1) as nat);
    }
}

/// A shuffle keeps the number of items.
pub proof fn lemma_shuffled_len<T>(items: Seq<T>, state: u128, increment: u128)
    ensures
        shuffled(items, state, increment).0.len() == items.len(),
{
    if items.len() >= 2 {
        lemma_fisher_yates_len(items, state, increment, (items.len() - 1) as nat);
    }
}

} // verus!
