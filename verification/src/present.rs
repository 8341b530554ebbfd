//! The PRESENT cipher: 80-bit key, 64-bit block, a fixed number of
//! substitution-permutation rounds followed by a whitening key, together
//! with the proof that decryption undoes encryption.

use vstd::prelude::*;
use crate::sbox::{present_sbox, present_table, sbox_wf, inverts, spec_sbox_state,
    lemma_present_table_wf, lemma_inverts_unique, lemma_sbox_state_roundtrip, SboxT};
use crate::keys::{KeyT, spec_keyschedule};
use crate::state::{spec_perm, spec_inv_perm, spec_present_round, permute_block,
    inv_permute_block, lemma_perm_roundtrip};
use crate::bits::lemma_xor_cancel;
use crate::analysis::{Sbox, BitPerm};
use vstd::arithmetic::power2::pow2;

verus! {

/// The PRESENT permutation table: the destination of each source bit
/// under the bit-slice transpose.
pub open spec fn present_perm_table() -> Seq<usize> {
    Seq::new(64, |i: int| (((i % 4) * 16 + i / 4) as usize))
}

/// The PRESENT sbox as a pluggable analysis component.
pub struct PresentSbox {
    size: usize,
    elems: Vec<usize>,
}

impl Sbox<u64> for PresentSbox {
    open spec fn table() -> Seq<u64> {
        present_table()
    }

    closed spec fn wf(&self) -> bool {
        &&& self.size == 16
        &&& self.elems@.len() == 16
        &&& forall|i: int| 0 <= i < 16 ==> (#[trigger] self.elems@[i]) as u64 == present_table()[i]
    }

    open spec fn spec_lookup_state(s: u64) -> u64 {
        spec_sbox_state(present_table(), s)
    }

    open spec fn spec_state_size() -> usize {
        64
    }

    proof fn properties() {
        lemma_present_table_wf();
        vstd::arithmetic::power2::lemma2_to64();
        assert(Self::table().len() == pow2(4));
    }

    fn new() -> (r: Self) {
        let mut elems: Vec<usize> = Vec::new();
        elems.push(0xc);
        elems.push(0x5);
        elems.push(0x6);
        elems.push(0xb);
        elems.push(0x9);
        elems.push(0x0);
        elems.push(0xa);
        elems.push(0xd);
        elems.push(0x3);
        elems.push(0xe);
        elems.push(0xf);
        elems.push(0x8);
        elems.push(0x4);
        elems.push(0x7);
        elems.push(0x1);
        elems.push(0x2);
        let r = PresentSbox { size: 16, elems };
        proof {
            assert(r.elems@ =~= seq![
                0xc,
                0x5,
                0x6,
                0xb,
                0x9,
                0x0,
                0xa,
                0xd,
                0x3,
                0xe,
                0xf,
                0x8,
                0x4,
                0x7,
                0x1,
                0x2,
            ]);
        }
        r
    }

    fn len(&self) -> (n: usize) {
        self.size
    }

    fn lookup(&self, i: usize) -> (r: usize) {
        self.elems[i]
    }

    fn lookup_state(&self, s: u64) -> (r: u64) {
        present_sbox().look_up_state(s)
    }

    fn state_size() -> (n: usize) {
        64
    }
}

/// The PRESENT bit permutation as a pluggable analysis component.
pub struct PresentPermutation {
    idx: Vec<usize>,
}

impl BitPerm<u64> for PresentPermutation {
    open spec fn table() -> Seq<usize> {
        present_perm_table()
    }

    closed spec fn wf(&self) -> bool {
        &&& self.idx@.len() == 64
        &&& forall|i: int| 0 <= i < 64 ==> #[trigger] self.idx@[i] == present_perm_table()[i]
    }

    open spec fn spec_lookup_state(s: u64) -> u64 {
        spec_perm(s)
    }

    open spec fn spec_state_size() -> usize {
        64
    }

    proof fn properties() {
        assert forall|i: int| 0 <= i < 64 implies #[trigger] present_perm_table()[i] < 64 by {
            assert(0 <= i % 4 < 4 && 0 <= i / 4 < 16);
        }
    }

    fn new() -> (r: Self) {
        let mut idx: Vec<usize> = Vec::new();
        let mut i: usize = 0;
        while i < 64
            invariant
                i <= 64,
                idx@.len() == i,
                forall|q: int| 0 <= q < i ==> #[trigger] idx@[q] == present_perm_table()[q],
            decreases 64 - i,
        {
            idx.push((i % 4) * 16 + i / 4);
            i += 1;
        }
        PresentPermutation { idx }
    }

    fn at(&self, i: usize) -> (r: usize) {
        self.idx[i]
    }

    fn lookup_state(&self, s: u64) -> (r: u64) {
        permute_block(s)
    }

    fn state_size() -> (n: usize) {
        64
    }
}

/// The inverse of the PRESENT sbox as a sequence of nibbles.
pub open spec fn present_inv_table() -> Seq<u64> {
    seq![0x5, 0xe, 0xf, 0x8, 0xc, 0x1, 0x2, 0xd, 0xb, 0x4, 0x6, 0x3, 0x0, 0x7, 0x9, 0xa]
}

/// The tabulated inverse really inverts the PRESENT sbox.
pub proof fn lemma_present_inv_table()
    ensures
        sbox_wf(present_inv_table()),
        inverts(present_inv_table(), present_table()),
{
    let t = present_table();
    let u = present_inv_table();
    assert(u.len() == 16);
    assert(forall|i: int| 0 <= i < 16 ==> u[i] < 16);
    assert(forall|i: int, j: int| 0 <= i < j < 16 ==> u[i] != u[j]);
    assert(forall|i: int| 0 <= i < 16 ==> u[t[i] as int] == i);
}

/// The 80-bit PRESENT cipher key: a 64-bit primary register and a 16-bit
/// extension register.
#[derive(Clone, Copy, PartialEq, Eq, Structural, Debug)]
pub struct PresentCipherKey {
    pub high: u64,
    pub low: u16,
}

impl PresentCipherKey {
    /// Packs the two key registers.
    pub fn new(high: u64, low: u16) -> (r: Self)
        ensures
            r.high == high,
            r.low == low,
    {
        PresentCipherKey { high, low }
    }
}

/// A single 64-bit round key.
#[derive(Clone, Copy, PartialEq, Eq, Structural, Debug)]
pub struct PresentRoundKey {
    pub k: u64,
}

impl PresentRoundKey {
    /// Wraps a 64-bit round-key value.
    pub fn new(k: u64) -> (r: Self)
        ensures
            r.k == k,
    {
        PresentRoundKey { k }
    }
}

/// The round keys that the PRESENT key schedule derives: the primary
/// registers of the schedule states, in order.
pub open spec fn spec_present_schedule(h: u64, l: u16, rounds: nat) -> Seq<u64> {
    spec_keyschedule(h, l, rounds).map_values(|p: (u64, u16)| p.0)
}

/// The table of round keys for a fixed key and round count.
pub struct PresentKeySchedule {
    pub keys: Vec<u64>,
}

impl PresentKeySchedule {
    /// Runs the key schedule for `rounds` rounds, deriving the
    /// `rounds + 1` round keys.
    pub fn new(key: PresentCipherKey, rounds: usize) -> (r: Self)
        requires
            rounds < usize::MAX,
        ensures
            r.keys@ == spec_present_schedule(key.high, key.low, rounds as nat),
            r.keys@.len() == rounds + 1,
    {
        let mut kt = KeyT::new(key.high, key.low);
        kt.keyschedule(rounds);
        let ghost sched = spec_keyschedule(key.high, key.low, rounds as nat);
        let mut keys: Vec<u64> = Vec::new();
        let mut i: usize = 0;
        while i < kt.len()
            invariant
                kt.keys@.map_values(|k: crate::keys::SubkeyT| (k.high, k.low)) == sched,
                kt.keys@.len() == rounds + 1,
                i <= rounds + 1,
                keys@.len() == i,
                forall|j: int| 0 <= j < i ==> keys@[j] == sched[j].0,
            decreases kt.keys@.len() - i,
        {
            let sk = kt.subkey(i);
            proof {
                assert(sched[i as int] == (sk.high, sk.low));
            }
            keys.push(sk.round_key());
            i += 1;
        }
        proof {
            assert(keys@ =~= sched.map_values(|p: (u64, u16)| p.0));
        }
        PresentKeySchedule { keys }
    }

    /// The round key of round `i`.
    pub fn round_key(&self, i: usize) -> (r: PresentRoundKey)
        requires
            i < self.keys@.len(),
        ensures
            r.k == self.keys@[i as int],
    {
        PresentRoundKey::new(self.keys[i])
    }

    /// How many round keys the schedule holds.
    pub fn len(&self) -> (n: usize)
        ensures
            n == self.keys@.len(),
    {
        self.keys.len()
    }
}

/// The state after `i` full rounds of encryption under `keys`.
pub open spec fn spec_enc_rounds(keys: Seq<u64>, m: u64, i: nat) -> u64
    decreases i,
{
    if i == 0 {
        m
    } else {
        spec_present_round(spec_enc_rounds(keys, m, (i - 1) as nat), keys[i - 1])
    }
}

/// Encryption: `rounds` full rounds, then the whitening key.
pub open spec fn spec_enc(keys: Seq<u64>, m: u64, rounds: nat) -> u64 {
    spec_enc_rounds(keys, m, rounds) ^ keys[rounds as int]
}

/// One inverse round: undo the permutation, undo the substitution, undo
/// the key mixing of round `k`.
pub open spec fn spec_inv_round(s: u64, k: u64) -> u64 {
    spec_sbox_state(present_inv_table(), spec_inv_perm(s)) ^ k
}

/// The state after undoing the top `i` rounds.
pub open spec fn spec_dec_rounds(keys: Seq<u64>, s: u64, i: nat) -> u64
    decreases i,
{
    if i == 0 {
        s
    } else {
        spec_dec_rounds(keys, spec_inv_round(s, keys[i - 1]), (i - 1) as nat)
    }
}

/// Decryption: undo the whitening key, then undo the rounds from last to
/// first.
pub open spec fn spec_dec(keys: Seq<u64>, c: u64, rounds: nat) -> u64 {
    spec_dec_rounds(keys, c ^ keys[rounds as int], rounds)
}

proof fn lemma_inv_round_undo(s: u64, k: u64)
    ensures
        spec_inv_round(spec_present_round(s, k), k) == s,
{
    lemma_present_table_wf();
    lemma_present_inv_table();
    lemma_perm_roundtrip(spec_sbox_state(present_table(), s ^ k));
    lemma_sbox_state_roundtrip(present_table(), present_inv_table(), s ^ k);
    lemma_xor_cancel(s, k);
}

proof fn lemma_dec_rounds_undo(keys: Seq<u64>, m: u64, i: nat)
    ensures
        spec_dec_rounds(keys, spec_enc_rounds(keys, m, i), i) == m,
    decreases i,
{
    if i > 0 {
        let s = spec_enc_rounds(keys, m, (i - 1) as nat);
        lemma_inv_round_undo(s, keys[i - 1]);
        lemma_dec_rounds_undo(keys, m, (i - 1) as nat);
    }
}

/// The chief correctness property of the cipher: for every key schedule,
/// every message and every round count, decrypting the encryption gives
/// the message back.
pub proof fn lemma_cipher_roundtrip(keys: Seq<u64>, m: u64, rounds: nat)
    ensures
        spec_dec(keys, spec_enc(keys, m, rounds), rounds) == m,
{
    lemma_xor_cancel(spec_enc_rounds(keys, m, rounds), keys[rounds as int]);
    lemma_dec_rounds_undo(keys, m, rounds);
}

/// The PRESENT cipher, fixed to the round count its key schedule was
/// generated for.
pub struct Present {
    pub sched: PresentKeySchedule,
    pub rounds: usize,
}

impl Present {
    /// The schedule holds exactly one round key per round plus the
    /// whitening key.
    pub open spec fn wf(&self) -> bool {
        self.sched.keys@.len() == self.rounds + 1
    }

    /// Builds the cipher for `key`, generating the schedule for exactly
    /// `rounds` rounds.
    pub fn new(key: PresentCipherKey, rounds: usize) -> (r: Self)
        requires
            rounds < usize::MAX,
        ensures
            r.wf(),
            r.rounds == rounds,
            r.sched.keys@ == spec_present_schedule(key.high, key.low, rounds as nat),
    {
        Present { sched: PresentKeySchedule::new(key, rounds), rounds }
    }

    /// Encrypts one 64-bit block. The round count must match the one the
    /// schedule was generated for.
    pub fn enc(&self, m: u64, rounds: usize) -> (c: u64)
        requires
            self.wf(),
            rounds == self.rounds,
        ensures
            c == spec_enc(self.sched.keys@, m, rounds as nat),
    {
        let ghost keys = self.sched.keys@;
        let sbox = present_sbox();
        let mut state = m;
        let mut i: usize = 0;
        while i < rounds
            invariant
                i <= rounds,
                self.wf(),
                rounds == self.rounds,
                keys == self.sched.keys@,
                sbox.wf(),
                sbox.tbl() == present_table(),
                state == spec_enc_rounds(keys, m, i as nat),
            decreases rounds - i,
        {
            let mixed = state ^ self.sched.keys[i];
            let substituted = sbox.look_up_state(mixed);
            state = permute_block(substituted);
            i += 1;
        }
        state ^ self.sched.keys[rounds]
    }

    /// Decrypts one 64-bit block, mirroring the schedule index usage of
    /// encryption exactly.
    pub fn dec(&self, c: u64, rounds: usize) -> (p: u64)
        requires
            self.wf(),
            rounds == self.rounds,
        ensures
            p == spec_dec(self.sched.keys@, c, rounds as nat),
    {
        let ghost keys = self.sched.keys@;
        let sbox_inv = present_sbox().inverse();
        proof {
            lemma_present_table_wf();
            lemma_present_inv_table();
            lemma_inverts_unique(present_table(), sbox_inv.tbl(), present_inv_table());
        }
        let mut state = c ^ self.sched.keys[rounds];
        let mut r = rounds;
        while r > 0
            invariant
                r <= rounds,
                self.wf(),
                rounds == self.rounds,
                keys == self.sched.keys@,
                sbox_inv.wf(),
                sbox_inv.tbl() == present_inv_table(),
                spec_dec(keys, c, rounds as nat) == spec_dec_rounds(keys, state, r as nat),
            decreases r,
        {
            let unpermuted = inv_permute_block(state);
            let unsubstituted = sbox_inv.look_up_state(unpermuted);
            state = unsubstituted ^ self.sched.keys[r - 1];
            r -= 1;
        }
        state
    }
}

} // verus!
