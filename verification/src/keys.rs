//! The PRESENT key schedule: an 80-bit key register, rotated, partially
//! substituted and counter-mixed once per round, emitting one 64-bit
//! round key per step.

use vstd::prelude::*;
use crate::sbox::{present_sbox, present_table, spec_look_up_byte, lemma_present_table_wf};

verus! {

/// One state of the key schedule: the 64-bit round key together with the
/// 16 extension bits carried into the next step.
#[derive(Clone, Copy, PartialEq, Eq, Structural, Debug)]
pub struct SubkeyT {
    pub high: u64,
    pub low: u16,
}

impl SubkeyT {
    /// Packs the two registers of one key-schedule state.
    pub fn new(high: u64, low: u16) -> (r: Self)
        ensures
            r.high == high,
            r.low == low,
    {
        SubkeyT { high, low }
    }

    /// The 64-bit round key of this state.
    pub fn round_key(&self) -> (r: u64)
        ensures
            r == self.high,
    {
        self.high
    }
}

/// One step of the PRESENT key schedule: rotate the 80-bit register 61
/// bits left, pass the top nibble of the primary register through the
/// sbox, and XOR the round counter `i` into bit 15 of the extension
/// register and the low bits of the primary register.
pub open spec fn spec_key_round(h: u64, l: u16, i: u64) -> (u64, u16) {
    let l1 = ((h >> 3) & 0xffff) as u16;
    let h1 = (h >> 19) | ((l as u64) << 45) | ((h & 0b111) << 61);
    let h2 = (h1 & 0x0fff_ffff_ffff_ffff) | (spec_look_up_byte(present_table(), (h1 >> 60) as u8)
        << 60);
    let l2 = l1 ^ (((i & 1) << 15) as u16);
    let h3 = h2 ^ (i >> 1);
    (h3, l2)
}

/// The schedule for `rounds` rounds: `rounds + 1` register states, state 0
/// being the initial key itself.
pub open spec fn spec_keyschedule(h: u64, l: u16, rounds: nat) -> Seq<(u64, u16)>
    decreases rounds,
{
    if rounds == 0 {
        seq![(h, l)]
    } else {
        let prev = spec_keyschedule(h, l, (rounds - 1) as nat);
        prev.push(spec_key_round(prev.last().0, prev.last().1, rounds as u64))
    }
}

/// The schedule always holds `rounds + 1` states.
pub proof fn lemma_keyschedule_len(h: u64, l: u16, rounds: nat)
    ensures
        spec_keyschedule(h, l, rounds).len() == rounds + 1,
    decreases rounds,
{
    if rounds > 0 {
        lemma_keyschedule_len(h, l, (rounds - 1) as nat);
    }
}

/// Earlier entries of the schedule do not change when it is extended.
pub proof fn lemma_keyschedule_prefix(h: u64, l: u16, a: nat, b: nat, i: int)
    requires
        a <= b,
        0 <= i <= a,
    ensures
        spec_keyschedule(h, l, b)[i] == spec_keyschedule(h, l, a)[i],
    decreases b,
{
    lemma_keyschedule_len(h, l, b);
    if b > a {
        lemma_keyschedule_len(h, l, (b - 1) as nat);
        lemma_keyschedule_prefix(h, l, a, (b - 1) as nat, i);
    }
}

/// Holds the ordered sequence of key-schedule states.
pub struct KeyT {
    pub keys: Vec<SubkeyT>,
}

impl KeyT {
    /// A fresh key register holding only the initial 80-bit key.
    pub fn new(high: u64, low: u16) -> (r: Self)
        ensures
            r.keys@.len() == 1,
            r.keys@[0] == (SubkeyT { high, low }),
    {
        KeyT { keys: vec![SubkeyT::new(high, low)] }
    }

    /// The key-schedule state of round `i`.
    pub fn subkey(&self, i: usize) -> (r: SubkeyT)
        requires
            i < self.keys@.len(),
        ensures
            r == self.keys@[i as int],
    {
        self.keys[i]
    }

    /// How many states the schedule currently holds.
    pub fn len(&self) -> (n: usize)
        ensures
            n == self.keys@.len(),
    {
        self.keys.len()
    }

    /// Runs the PRESENT key schedule, extending the initial key to the
    /// full table of `rounds + 1` round keys.
    pub fn keyschedule(&mut self, rounds: usize)
        requires
            old(self).keys@.len() == 1,
            rounds < usize::MAX,
        ensures
            final(self).keys@.map_values(|k: SubkeyT| (k.high, k.low)) == spec_keyschedule(
                old(self).keys@[0].high,
                old(self).keys@[0].low,
                rounds as nat,
            ),
            final(self).keys@.len() == rounds + 1,
    {
        let ghost h0 = self.keys@[0].high;
        let ghost l0 = self.keys@[0].low;
        proof {
            lemma_keyschedule_len(h0, l0, rounds as nat);
        }
        let sbox = present_sbox();
        let mut i: usize = 1;
        while i < rounds + 1
            invariant
                1 <= i <= rounds + 1,
                rounds < usize::MAX,
                sbox.wf(),
                sbox.tbl() == present_table(),
                self.keys@.len() == i,
                self.keys@.map_values(|k: SubkeyT| (k.high, k.low)) == spec_keyschedule(
                    h0,
                    l0,
                    (i - 1) as nat,
                ),
            decreases rounds + 1 - i,
        {
            let prev = self.keys[i - 1];
            let ghost view_prev = self.keys@.map_values(|k: SubkeyT| (k.high, k.low));
            proof {
                lemma_keyschedule_len(h0, l0, (i - 1) as nat);
                assert(view_prev[i - 1] == (prev.high, prev.low));
            }
            let mut low = ((prev.high >> 3) & 0xffff) as u16;
            let mut high = (prev.high >> 19) | ((prev.low as u64) << 45) | ((prev.high & 0b111)
                << 61);
            let sb = sbox.look_up_byte((high >> 60) as u8);
            high = (high & 0x0fff_ffff_ffff_ffff) | ((sb as u64) << 60);
            low = low ^ (((i & 0b1) << 15) as u16);
            high = high ^ ((i >> 1) as u64);
            proof {
                let iu: u64 = i as u64;
                assert((((i & 0b1) << 15) as u16) == (((iu & 1) << 15) as u16)) by (bit_vector)
                    requires
                        iu == i as u64,
                ;
                assert(((i >> 1) as u64) == iu >> 1) by (bit_vector)
                    requires
                        iu == i as u64,
                ;
                assert((high, low) == spec_key_round(prev.high, prev.low, iu));
                assert(spec_keyschedule(h0, l0, i as nat) == spec_keyschedule(
                    h0,
                    l0,
                    (i - 1) as nat,
                ).push(spec_key_round(prev.high, prev.low, iu)));
            }
            self.keys.push(SubkeyT::new(high, low));
            proof {
                assert(self.keys@.map_values(|k: SubkeyT| (k.high, k.low)) =~= view_prev.push(
                    (high, low),
                ));
            }
            i += 1;
        }
    }
}

} // verus!
