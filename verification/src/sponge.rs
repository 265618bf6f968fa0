//! The sponge state machine.
//!
//! A `SpongeState` absorbs a message of arbitrary bit length into the 200-byte
//! permutation state, rate-sized block by rate-sized block, applies the
//! `pad10*1` rule on the first squeeze request, and then serves squeeze
//! requests of arbitrary byte length, re-permuting whenever a block is
//! exhausted.
//!
//! The specification models the machine over bit sequences: `absorb_bits`
//! feeds message bits one at a time into a queue of pending bits, absorbing a
//! block whenever the queue reaches the rate, and `stream_byte` gives the
//! infinite output stream available once the padded message has been absorbed.

use crate::bitstream::{
    bits_of_bytes, byte_bit, bytes_of_bits, lemma_bits_of_bytes_take, lemma_bytes_of_bits_of_bytes,
};
use crate::permutation::{
    absorb, absorb_1024_bits, absorb_1088_bits, absorb_1152_bits, absorb_1344_bits,
    absorb_576_bits, absorb_832_bits, extract, extract_1024_bits, permute, spec_absorb_block,
    spec_keccak_f_bytes,
};
use vstd::arithmetic::div_mod::{
    lemma_fundamental_div_mod, lemma_fundamental_div_mod_converse,
    lemma_mod_division_less_than_divisor,
};
use vstd::prelude::*;
use vstd::slice::slice_subrange;

verus! {

/// The error surface of the sponge.
#[derive(Clone, Copy, Debug, PartialEq, Eq)]
pub enum SpongeError {
    /// Protocol misuse: absorb called after squeezing began, or after a
    /// previous absorb left a sub-byte fragment queued.
    InvalidState,
    /// A squeeze request that does not fit the output buffer.
    InvalidLength,
}

/// The first `nbits` bits of a byte buffer.
pub open spec fn prefix_bits(bytes: Seq<u8>, nbits: nat) -> Seq<bool>
    recommends
        nbits <= bytes.len() * 8,
{
    bits_of_bytes(bytes).take(nbits as int)
}

/// The all-zero 200-byte state a fresh computation starts from.
pub open spec fn zero_state() -> Seq<u8> {
    Seq::new(200, |i: int| 0u8)
}

/// Feed the message bits `m` into a sponge whose state is `st` and whose queue
/// holds the pending bits `q`: each bit joins the queue, and a full queue of
/// `rate` bits is absorbed as one block and emptied.  Returns the final state
/// and queue.
pub open spec fn absorb_bits(st: Seq<u8>, q: Seq<bool>, m: Seq<bool>, rate: nat) -> (Seq<u8>, Seq<
    bool,
>)
    recommends
        st.len() == 200,
        q.len() < rate,
        rate % 8 == 0,
        rate <= 1600,
    decreases m.len(),
{
    if m.len() == 0 {
        (st, q)
    } else {
        let q2 = q.push(m[0]);
        if q2.len() == rate {
            absorb_bits(spec_absorb_block(st, bytes_of_bits(q2)), Seq::<bool>::empty(), m.skip(1), rate)
        } else {
            absorb_bits(st, q2, m.skip(1), rate)
        }
    }
}

/// Absorbing a concatenation is absorbing the parts in order.
pub proof fn lemma_absorb_bits_append(
    st: Seq<u8>,
    q: Seq<bool>,
    m1: Seq<bool>,
    m2: Seq<bool>,
    rate: nat,
)
    ensures
        absorb_bits(st, q, m1 + m2, rate) == {
            let mid = absorb_bits(st, q, m1, rate);
            absorb_bits(mid.0, mid.1, m2, rate)
        },
    decreases m1.len(),
{
    if m1.len() == 0 {
        assert(m1 + m2 =~= m2);
    } else {
        let q2 = q.push(m1[0]);
        assert((m1 + m2)[0] == m1[0]);
        assert((m1 + m2).skip(1) =~= m1.skip(1) + m2);
        if q2.len() == rate {
            lemma_absorb_bits_append(
                spec_absorb_block(st, bytes_of_bits(q2)),
                Seq::<bool>::empty(),
                m1.skip(1),
                m2,
                rate,
            );
        } else {
            lemma_absorb_bits_append(st, q2, m1.skip(1), m2, rate);
        }
    }
}

/// A chunk too short to fill the queue is simply appended to it.
pub proof fn lemma_absorb_bits_short(st: Seq<u8>, q: Seq<bool>, m: Seq<bool>, rate: nat)
    requires
        q.len() + m.len() < rate,
    ensures
        absorb_bits(st, q, m, rate) == (st, q + m),
    decreases m.len(),
{
    if m.len() == 0 {
        assert(q + m =~= q);
    } else {
        let q2 = q.push(m[0]);
        lemma_absorb_bits_short(st, q2, m.skip(1), rate);
        assert(q2 + m.skip(1) =~= q + m);
    }
}

/// A chunk that fills the queue exactly absorbs one block and empties it.
pub proof fn lemma_absorb_bits_fill(st: Seq<u8>, q: Seq<bool>, m: Seq<bool>, rate: nat)
    requires
        q.len() < rate,
        q.len() + m.len() == rate,
    ensures
        absorb_bits(st, q, m, rate) == (
            spec_absorb_block(st, bytes_of_bits(q + m)),
            Seq::<bool>::empty(),
        ),
    decreases m.len(),
{
    let q2 = q.push(m[0]);
    if m.len() == 1 {
        assert(q2 =~= q + m);
        assert(absorb_bits(
            spec_absorb_block(st, bytes_of_bits(q2)),
            Seq::<bool>::empty(),
            m.skip(1),
            rate,
        ) == (spec_absorb_block(st, bytes_of_bits(q2)), Seq::<bool>::empty()));
    } else {
        lemma_absorb_bits_fill(st, q2, m.skip(1), rate);
        assert(q2 + m.skip(1) =~= q + m);
    }
}

/// Absorption preserves the bit alignment of the pending queue: the queue
/// that remains is the total fed in, less whole rate-sized blocks, and the
/// rate is a multiple of eight.
pub proof fn lemma_absorb_bits_queue_len(st: Seq<u8>, q: Seq<bool>, m: Seq<bool>, rate: nat)
    requires
        rate % 8 == 0,
    ensures
        absorb_bits(st, q, m, rate).1.len() % 8 == (q.len() + m.len()) % 8,
    decreases m.len(),
{
    if m.len() > 0 {
        let q2 = q.push(m[0]);
        if q2.len() == rate {
            lemma_absorb_bits_queue_len(
                spec_absorb_block(st, bytes_of_bits(q2)),
                Seq::<bool>::empty(),
                m.skip(1),
                rate,
            );
            assert((q.len() + m.len()) % 8 == (m.len() - 1) % 8) by (nonlinear_arith)
                requires
                    rate % 8 == 0,
                    q.len() + 1 == rate,
                    m.len() >= 1,
            ;
        } else {
            lemma_absorb_bits_queue_len(st, q2, m.skip(1), rate);
        }
    }
}

/// Length of the `pad10*1` padding for a queue of `qlen` bits: up to the next
/// multiple of the rate that leaves room for both padding bits.
pub open spec fn pad_len(qlen: nat, rate: nat) -> nat
    recommends
        qlen < rate,
        rate > 0,
{
    if qlen + 2 <= rate {
        (rate - qlen) as nat
    } else {
        (2 * rate - qlen) as nat
    }
}

/// The `pad10*1` padding itself: a 1 bit, zero or more 0 bits, a final 1 bit.
/// When exactly one bit of queue space is free the two 1 bits coincide only in
/// the sense that the padding spans a whole extra block.
pub open spec fn pad_bits(qlen: nat, rate: nat) -> Seq<bool>
    recommends
        qlen < rate,
        rate > 0,
{
    Seq::new(pad_len(qlen, rate), |i: int| i == 0 || i == pad_len(qlen, rate) - 1)
}

/// The state after padding the queued bits and absorbing the final block(s).
pub open spec fn spec_pad_absorb(st: Seq<u8>, q: Seq<bool>, rate: nat) -> Seq<u8>
    recommends
        st.len() == 200,
        q.len() < rate,
        rate % 8 == 0,
        rate <= 1600,
{
    absorb_bits(st, q, pad_bits(q.len(), rate), rate).0
}

/// The state after `k` further applications of the permutation.
pub open spec fn states_after(st: Seq<u8>, k: nat) -> Seq<u8>
    recommends
        st.len() == 200,
    decreases k,
{
    if k == 0 {
        st
    } else {
        spec_keccak_f_bytes(states_after(st, (k - 1) as nat))
    }
}

/// Byte `i` of the squeeze stream that starts at state `st`: the first
/// `rate_bytes` bytes of `st`, then of `f(st)`, and so on.
pub open spec fn stream_byte(st: Seq<u8>, rate_bytes: nat, i: nat) -> u8
    recommends
        st.len() == 200,
        0 < rate_bytes <= 200,
{
    states_after(st, i / rate_bytes)[(i % rate_bytes) as int]
}

/// Iterating the permutation once more shifts the iteration start.
proof fn lemma_states_after_shift(st: Seq<u8>, k: nat)
    ensures
        states_after(st, k + 1) == states_after(spec_keccak_f_bytes(st), k),
    decreases k,
{
    if k == 0 {
        assert(states_after(st, 1) == spec_keccak_f_bytes(states_after(st, 0)));
    } else {
        lemma_states_after_shift(st, (k - 1) as nat);
        assert(states_after(st, k + 1) == spec_keccak_f_bytes(states_after(st, k)));
        assert(states_after(spec_keccak_f_bytes(st), k) == spec_keccak_f_bytes(
            states_after(spec_keccak_f_bytes(st), (k - 1) as nat),
        ));
    }
}

/// Advancing the stream start by one permutation drops one block of bytes.
pub proof fn lemma_stream_shift(st: Seq<u8>, rate_bytes: nat, i: nat)
    requires
        rate_bytes > 0,
    ensures
        stream_byte(spec_keccak_f_bytes(st), rate_bytes, i) == stream_byte(
            st,
            rate_bytes,
            i + rate_bytes,
        ),
{
    assert((i + rate_bytes) / rate_bytes == i / rate_bytes + 1 && (i + rate_bytes) % rate_bytes == i
        % rate_bytes) by (nonlinear_arith)
        requires
            rate_bytes > 0,
            i >= 0,
    ;
    lemma_states_after_shift(st, i / rate_bytes);
}

/// The abstract value of a sponge: its configuration, permutation state,
/// queued message bits, and squeeze position.
pub ghost struct SpongeView {
    /// Rate in bits.
    pub rate: nat,
    /// Capacity in bits; `rate + capacity == 1600`.
    pub capacity: nat,
    /// The 200-byte permutation state.
    pub state: Seq<u8>,
    /// Message bits queued but not yet absorbed (empty once squeezing).
    pub queue: Seq<bool>,
    /// Whether the machine has switched to the squeezing phase.
    pub squeezing: bool,
    /// Bytes of the current rate-sized block already delivered to squeeze
    /// callers; meaningful only while squeezing.
    pub squeezed: nat,
}

/// A sponge instance: the Keccak state, the queue of bytes not yet absorbed
/// (or, while squeezing, the block not yet fully delivered), and the phase.
pub struct SpongeState {
    state: Vec<u8>,
    data_queue: Vec<u8>,
    rate: usize,
    capacity: usize,
    bits_in_queue: usize,
    squeezing: bool,
    bits_for_squeezing: usize,
}

impl View for SpongeState {
    type V = SpongeView;

    closed spec fn view(&self) -> SpongeView {
        SpongeView {
            rate: self.rate as nat,
            capacity: self.capacity as nat,
            state: self.state@,
            queue: prefix_bits(self.data_queue@, self.bits_in_queue as nat),
            squeezing: self.squeezing,
            squeezed: (((self.rate - self.bits_for_squeezing) as int) / 8) as nat,
        }
    }
}

impl SpongeState {
    /// The representation invariant every method preserves.
    pub closed spec fn inv(&self) -> bool {
        &&& self.state@.len() == 200
        &&& self.data_queue@.len() == 200
        &&& self.rate % 64 == 0
        &&& 64 <= self.rate <= 1600
        &&& self.rate + self.capacity == 1600
        &&& !self.squeezing ==> {
            &&& self.bits_in_queue < self.rate
            &&& self.bits_for_squeezing == 0
            &&& (self.bits_in_queue % 8 != 0 ==> forall|j: u8|
                self.bits_in_queue as int % 8 <= j < 8 ==> !#[trigger] byte_bit(
                    self.data_queue@[self.bits_in_queue as int / 8],
                    j,
                ))
        }
        &&& self.squeezing ==> {
            &&& self.bits_in_queue == 0
            &&& self.bits_for_squeezing <= self.rate
            &&& self.bits_for_squeezing % 8 == 0
            &&& self.data_queue@.take(self.rate as int / 8) == self.state@.take(
                self.rate as int / 8,
            )
        }
    }

    /// Basic well-formedness facts of the abstract value, implied by the
    /// invariant.
    pub open spec fn wf(v: SpongeView) -> bool {
        &&& v.state.len() == 200
        &&& v.rate % 64 == 0
        &&& 64 <= v.rate <= 1600
        &&& v.rate + v.capacity == 1600
        &&& v.squeezing ==> v.queue.len() == 0 && v.squeezed * 8 <= v.rate
        &&& !v.squeezing ==> v.queue.len() < v.rate
    }

    /// The invariant implies the public well-formedness of the view.
    pub proof fn lemma_inv_wf(&self)
        requires
            self.inv(),
        ensures
            Self::wf(self@),
    {
        assert(self@.queue.len() == self.bits_in_queue);
    }

    /// Create a sponge with the given rate and capacity in bits.  The state
    /// and queue start all-zero, in the absorbing phase.
    pub fn new(rate: usize, capacity: usize) -> (s: SpongeState)
        requires
            rate + capacity == 1600,
            rate % 64 == 0,
            rate >= 64,
        ensures
            s.inv(),
            Self::wf(s@),
            s@.rate == rate,
            s@.capacity == capacity,
            s@.state == zero_state(),
            s@.queue == Seq::<bool>::empty(),
            !s@.squeezing,
    {
        let s = SpongeState {
            state: vec![0u8; 200],
            data_queue: vec![0u8; 200],
            rate,
            capacity,
            bits_in_queue: 0,
            squeezing: false,
            bits_for_squeezing: 0,
        };
        proof {
            assert(s.state@ =~= zero_state());
            assert(s@.queue =~= Seq::<bool>::empty());
            s.lemma_inv_wf();
        }
        s
    }

    /// Absorb one rate-sized block taken from the front of the queue and
    /// reset the queue fill to zero.
    fn absorb_queue(&mut self)
        requires
            old(self).state@.len() == 200,
            old(self).data_queue@.len() == 200,
            old(self).rate % 64 == 0,
            64 <= old(self).rate <= 1600,
        ensures
            final(self).state@ == spec_absorb_block(
                old(self).state@,
                old(self).data_queue@.take(old(self).rate as int / 8),
            ),
            final(self).state@.len() == 200,
            final(self).data_queue@ == old(self).data_queue@,
            final(self).bits_in_queue == 0,
            final(self).rate == old(self).rate,
            final(self).capacity == old(self).capacity,
            final(self).squeezing == old(self).squeezing,
            final(self).bits_for_squeezing == old(self).bits_for_squeezing,
    {
        proof {
            let r = old(self).rate as int;
            assert(r / 8 <= 200) by (nonlinear_arith)
                requires
                    0 <= r <= 1600,
            ;
        }
        let rb = self.rate / 8;
        let block = slice_subrange(self.data_queue.as_slice(), 0, rb);
        proof {
            assert(block@ =~= self.data_queue@.take(self.rate as int / 8));
        }
        absorb_direct(&mut self.state, block, self.rate);
        self.bits_in_queue = 0;
    }
}

/// How a bit index inside byte `o` and following decomposes into byte index
/// and bit offset.
proof fn lemma_split_index(o: int, t: int)
    requires
        o >= 0,
        t >= 0,
    ensures
        (8 * o + t) / 8 == o + t / 8,
        (8 * o + t) % 8 == t % 8,
        0 <= t % 8 < 8,
        8 * (t / 8) <= t,
{
    lemma_fundamental_div_mod(t, 8);
    lemma_mod_division_less_than_divisor(t, 8);
    lemma_fundamental_div_mod_converse(8 * o + t, 8, o + t / 8, t % 8);
}

/// A byte-aligned slice of the bit view of a buffer is the bit view of the
/// corresponding byte slice.
proof fn lemma_bits_chunk(data: Seq<u8>, i: int, k: int)
    requires
        i >= 0,
        k >= 0,
        i % 8 == 0,
        i + 8 * k <= data.len() * 8,
    ensures
        bits_of_bytes(data).subrange(i, i + 8 * k) == bits_of_bytes(
            data.subrange(i / 8, i / 8 + k),
        ),
{
    lemma_fundamental_div_mod(i, 8);
    let lhs = bits_of_bytes(data).subrange(i, i + 8 * k);
    let rhs = bits_of_bytes(data.subrange(i / 8, i / 8 + k));
    assert forall|t: int| 0 <= t < 8 * k implies lhs[t] == rhs[t] by {
        lemma_split_index(i / 8, t);
        assert(t / 8 < k);
        assert(lhs[t] == byte_bit(data[(i + t) / 8], ((i + t) % 8) as u8));
        assert((i + t) / 8 == i / 8 + t / 8 && (i + t) % 8 == t % 8);
    }
    assert(lhs =~= rhs);
}

/// The state the squeeze stream reads from: the current state while
/// squeezing, else the state after padding and absorbing the queued bits.
pub open spec fn squeeze_start_state(v: SpongeView) -> Seq<u8> {
    if v.squeezing {
        v.state
    } else {
        spec_pad_absorb(v.state, v.queue, v.rate)
    }
}

/// How many bytes of the squeeze stream have already been delivered from the
/// current block.
pub open spec fn squeeze_start_offset(v: SpongeView) -> nat {
    if v.squeezing {
        v.squeezed
    } else {
        0
    }
}

/// A buffer whose leading `rate` bits read as `target` has the packed bytes
/// of `target` as its leading `rate / 8` bytes.
proof fn lemma_block_bytes_from_bits(dq: Seq<u8>, rate: nat, target: Seq<bool>)
    requires
        dq.len() == 200,
        rate % 8 == 0,
        8 <= rate <= 1600,
        prefix_bits(dq, rate) == target,
    ensures
        dq.take(rate as int / 8) == bytes_of_bits(target),
{
    assert(8 * (rate as int / 8) == rate as int) by (nonlinear_arith)
        requires
            rate % 8 == 0,
            rate >= 0,
    ;
    lemma_bits_of_bytes_take(dq, rate as int / 8);
    lemma_bytes_of_bits_of_bytes(dq.take(rate as int / 8));
}

impl SpongeState {
    /// Copy `k` whole bytes of `data`, starting at `byte_off`, onto the tail
    /// of the (byte-aligned) queue.
    fn fill_queue_bytes(&mut self, data: &[u8], byte_off: usize, k: usize)
        requires
            old(self).data_queue@.len() == 200,
            old(self).bits_in_queue % 8 == 0,
            old(self).bits_in_queue + 8 * k <= old(self).rate,
            old(self).rate <= 1600,
            byte_off + k <= data@.len(),
        ensures
            final(self).data_queue@.len() == 200,
            final(self).bits_in_queue == old(self).bits_in_queue + 8 * k,
            prefix_bits(final(self).data_queue@, final(self).bits_in_queue as nat) == prefix_bits(
                old(self).data_queue@,
                old(self).bits_in_queue as nat,
            ) + bits_of_bytes(data@.subrange(byte_off as int, byte_off as int + k as int)),
            final(self).state@ == old(self).state@,
            final(self).rate == old(self).rate,
            final(self).capacity == old(self).capacity,
            final(self).squeezing == old(self).squeezing,
            final(self).bits_for_squeezing == old(self).bits_for_squeezing,
    {
        proof {
            lemma_fundamental_div_mod(old(self).bits_in_queue as int, 8);
        }
        let o = self.bits_in_queue / 8;
        let dlen = data.len();
        let ghost dq0 = self.data_queue@;
        let ghost b0 = self.bits_in_queue as int;
        let mut j: usize = 0;
        while j < k
            invariant
                j <= k,
                o == b0 / 8,
                8 * o == b0,
                b0 + 8 * k <= self.rate <= 1600,
                byte_off + k <= dlen,
                dlen == data@.len(),
                self.data_queue@.len() == 200,
                self.bits_in_queue == b0,
                forall|t: int|
                    0 <= t < 200 && !(o <= t < o + j) ==> self.data_queue@[t] == dq0[t],
                forall|t: int| o <= t < o + j ==> self.data_queue@[t] == data@[byte_off + t - o],
                self.state@ == old(self).state@,
                self.rate == old(self).rate,
                self.capacity == old(self).capacity,
                self.squeezing == old(self).squeezing,
                self.bits_for_squeezing == old(self).bits_for_squeezing,
            decreases k - j,
        {
            proof {
                assert(o + j < 200) by (nonlinear_arith)
                    requires
                        8 * o == b0,
                        0 <= b0,
                        0 <= j < k,
                        b0 + 8 * k <= 1600,
                ;
            }
            self.data_queue.set(o + j, data[byte_off + j]);
            j += 1;
        }
        proof {
            assert(b0 + 8 * k <= 1600);
        }
        self.bits_in_queue = self.bits_in_queue + 8 * k;
        proof {
            let dq2 = self.data_queue@;
            let lhs = prefix_bits(dq2, (b0 + 8 * k) as nat);
            let chunk = bits_of_bytes(data@.subrange(byte_off as int, byte_off as int + k as int));
            let rhs = prefix_bits(dq0, b0 as nat) + chunk;
            assert forall|t: int| 0 <= t < b0 + 8 * k implies lhs[t] == rhs[t] by {
                lemma_split_index(0, t);
                if t < b0 {
                    assert(t / 8 < o) by (nonlinear_arith)
                        requires
                            8 * (t / 8) <= t,
                            t < b0,
                            8 * o == b0,
                    ;
                    assert(dq2[t / 8] == dq0[t / 8]);
                } else {
                    let u = t - b0;
                    lemma_split_index(o as int, u);
                    assert(t / 8 == o + u / 8 && t % 8 == u % 8);
                    assert(u / 8 < k) by (nonlinear_arith)
                        requires
                            8 * (u / 8) <= u,
                            u < 8 * k,
                    ;
                    assert(dq2[o + u / 8] == data@[byte_off + u / 8]);
                    assert(rhs[t] == chunk[u]);
                    assert(chunk[u] == byte_bit(
                        data@.subrange(byte_off as int, byte_off as int + k as int)[u / 8],
                        (u % 8) as u8,
                    ));
                }
            }
            assert(lhs =~= rhs);
        }
    }

    /// Absorb `data_bit_len` bits of `data` into the sponge: bit `i` of the
    /// message is bit `i % 8` of byte `i / 8`.  Succeeds exactly when the
    /// machine is still absorbing, no sub-byte fragment is pending from an
    /// earlier call, and the buffer holds the promised bits; only the final
    /// absorb call of a message may pass a bit length that is not a multiple
    /// of eight.
    #[verifier::loop_isolation(false)]
    #[verifier::rlimit(100)]
    pub fn absorb(&mut self, data: &[u8], data_bit_len: usize) -> (r: Result<(), SpongeError>)
        requires
            old(self).inv(),
        ensures
            final(self).inv(),
            Self::wf(final(self)@),
            final(self)@.rate == old(self)@.rate,
            final(self)@.capacity == old(self)@.capacity,
            final(self)@.squeezing == old(self)@.squeezing,
            r == Ok::<(), SpongeError>(()) <==> (!old(self)@.squeezing && old(self)@.queue.len() % 8
                == 0 && data_bit_len <= data@.len() * 8),
            r == Ok::<(), SpongeError>(()) || r.is_err(),
            r.is_err() ==> final(self)@ == old(self)@,
            (old(self)@.squeezing || old(self)@.queue.len() % 8 != 0) ==> r == Err::<
                (),
                SpongeError,
            >(SpongeError::InvalidState),
            (!old(self)@.squeezing && old(self)@.queue.len() % 8 == 0 && data_bit_len > data@.len()
                * 8) ==> r == Err::<(), SpongeError>(SpongeError::InvalidLength),
            r == Ok::<(), SpongeError>(()) ==> {
                let res = absorb_bits(
                    old(self)@.state,
                    old(self)@.queue,
                    prefix_bits(data@, data_bit_len as nat),
                    old(self)@.rate,
                );
                final(self)@.state == res.0 && final(self)@.queue == res.1
            },
    {
        proof {
            self.lemma_inv_wf();
            assert(self@.queue.len() == self.bits_in_queue);
        }
        if self.bits_in_queue % 8 != 0 {
            return Err(SpongeError::InvalidState);
        }
        if self.squeezing {
            return Err(SpongeError::InvalidState);
        }
        let dlen = data.len();
        proof {
            lemma_fundamental_div_mod(data_bit_len as int, 8);
            lemma_mod_division_less_than_divisor(data_bit_len as int, 8);
        }
        if data_bit_len / 8 > dlen || (data_bit_len % 8 != 0 && data_bit_len / 8 >= dlen) {
            return Err(SpongeError::InvalidLength);
        }
        proof {
            assert(data_bit_len <= data@.len() * 8);
            assert(self.rate % 8 == 0) by (nonlinear_arith)
                requires
                    self.rate % 64 == 0,
            ;
        }
        let ghost st0 = self.state@;
        let ghost q0 = self@.queue;
        let ghost m = prefix_bits(data@, data_bit_len as nat);
        let ghost rate0 = self.rate as nat;
        let mut i: usize = 0;
        while i < data_bit_len
            invariant
                self.inv(),
                !self.squeezing,
                self.rate == old(self).rate,
                self.capacity == old(self).capacity,
                self.rate % 8 == 0,
                i <= data_bit_len,
                i % 8 == 0 || i == data_bit_len,
                self.bits_in_queue % 8 == 0 || i == data_bit_len,
                ({
                    let res = absorb_bits(st0, q0, m.take(i as int), rate0);
                    self.state@ == res.0 && prefix_bits(
                        self.data_queue@,
                        self.bits_in_queue as nat,
                    ) == res.1
                }),
            decreases data_bit_len - i,
        {
            let remaining = data_bit_len - i;
            proof {
                lemma_fundamental_div_mod(i as int, 8);
            }
            if self.bits_in_queue == 0 && remaining >= self.rate {
                // Whole-block fast path: absorb one rate-sized block straight
                // from the input.
                let bo = i / 8;
                let rb = self.rate / 8;
                proof {
                    assert(8 * (self.rate as int / 8) == self.rate as int) by (nonlinear_arith)
                        requires
                            self.rate as int % 8 == 0,
                            self.rate >= 0,
                    ;
                    assert(8 * (bo + rb) <= 8 * data@.len());
                }
                let block = slice_subrange(data, bo, bo + rb);
                let ghost st_pre = self.state@;
                absorb_direct(&mut self.state, block, self.rate);
                proof {
                    let chunk = m.subrange(i as int, i as int + rate0 as int);
                    lemma_bits_chunk(data@, i as int, rb as int);
                    assert(chunk =~= bits_of_bytes(data@).subrange(
                        i as int,
                        i as int + 8 * rb as int,
                    ));
                    assert(chunk =~= bits_of_bytes(block@));
                    lemma_absorb_bits_append(st0, q0, m.take(i as int), chunk, rate0);
                    assert(m.take(i as int + rate0 as int) =~= m.take(i as int) + chunk);
                    assert(prefix_bits(self.data_queue@, 0) =~= Seq::<bool>::empty());
                    lemma_absorb_bits_fill(st_pre, Seq::<bool>::empty(), chunk, rate0);
                    lemma_bytes_of_bits_of_bytes(block@);
                    assert(bytes_of_bits(Seq::<bool>::empty() + chunk) == block@) by {
                        assert(Seq::<bool>::empty() + chunk =~= chunk);
                        assert(chunk == bits_of_bytes(block@));
                    }
                }
                i += self.rate;
            } else {
                // Partial fill: copy whole bytes into the queue, absorbing it
                // if it fills, then store a final sub-byte fragment if one
                // remains.
                let mut part_block = remaining;
                if part_block > self.rate - self.bits_in_queue {
                    part_block = self.rate - self.bits_in_queue;
                }
                let part_byte = part_block % 8;
                part_block -= part_byte;
                let k = part_block / 8;
                proof {
                    lemma_fundamental_div_mod(part_block as int + part_byte as int, 8);
                    lemma_fundamental_div_mod(part_block as int, 8);
                    lemma_mod_division_less_than_divisor(part_block as int + part_byte as int, 8);
                    assert(8 * (k as int) == part_block as int);
                    assert((self.rate - self.bits_in_queue) % 8 == 0) by (nonlinear_arith)
                        requires
                            self.rate % 8 == 0,
                            self.bits_in_queue % 8 == 0,
                            self.bits_in_queue <= self.rate,
                    ;
                    assert(i as int / 8 + k as int <= data@.len());
                }
                let ghost st_pre = self.state@;
                let ghost q_pre = prefix_bits(self.data_queue@, self.bits_in_queue as nat);
                let ghost chunk1 = m.subrange(i as int, i as int + part_block as int);
                self.fill_queue_bytes(data, i / 8, k);
                proof {
                    lemma_bits_chunk(data@, i as int, k as int);
                    assert(chunk1 =~= bits_of_bytes(
                        data@.subrange(i as int / 8, i as int / 8 + k as int),
                    ));
                    lemma_absorb_bits_append(st0, q0, m.take(i as int), chunk1, rate0);
                    assert(m.take(i as int + part_block as int) =~= m.take(i as int) + chunk1);
                }
                i += part_block;
                if self.bits_in_queue == self.rate {
                    proof {
                        lemma_absorb_bits_fill(st_pre, q_pre, chunk1, rate0);
                        assert(q_pre + chunk1 == prefix_bits(self.data_queue@, rate0));
                        assert(8 * (rate0 as int / 8) == rate0 as int) by (nonlinear_arith)
                            requires
                                rate0 % 8 == 0,
                                rate0 >= 0,
                        ;
                        lemma_bits_of_bytes_take(self.data_queue@, rate0 as int / 8);
                        lemma_bytes_of_bits_of_bytes(self.data_queue@.take(rate0 as int / 8));
                        assert(bytes_of_bits(q_pre + chunk1) == self.data_queue@.take(
                            rate0 as int / 8,
                        ));
                    }
                    self.absorb_queue();
                    proof {
                        let res = absorb_bits(st0, q0, m.take(i as int), rate0);
                        assert(self.state@ == res.0);
                        assert(prefix_bits(self.data_queue@, 0) =~= Seq::<bool>::empty());
                    }
                } else {
                    proof {
                        lemma_absorb_bits_short(st_pre, q_pre, chunk1, rate0);
                    }
                }
                if part_byte > 0 {
                    proof {
                        // The clamp kept a sub-byte remainder only when the
                        // whole rest of the message fits before the block
                        // boundary.
                        assert(part_block + part_byte == remaining);
                        assert(self.bits_in_queue as int + part_byte < rate0);
                        assert(i as int % 8 == 0);
                        assert(8 * (i as int / 8) == i as int);
                        assert(i as int + part_byte < data@.len() * 8);
                        assert(i as int / 8 < data@.len()) by (nonlinear_arith)
                            requires
                                8 * (i as int / 8) == i as int,
                                i as int + 1 <= data@.len() * 8,
                        ;
                        assert(self.bits_in_queue as int / 8 < 200) by (nonlinear_arith)
                            requires
                                self.bits_in_queue as int % 8 == 0,
                                0 <= self.bits_in_queue as int,
                                (self.bits_in_queue as int) < 1600,
                        ;
                    }
                    let ghost st_c = self.state@;
                    let ghost q_c = prefix_bits(self.data_queue@, self.bits_in_queue as nat);
                    let ghost i_c = i as int;
                    let ghost b_c = self.bits_in_queue as int;
                    let ghost dq_c = self.data_queue@;
                    let pb8: u8 = part_byte as u8;
                    proof {
                        assert((1u8 << pb8) >= 1) by (bit_vector)
                            requires
                                pb8 < 8,
                        ;
                    }
                    let mask: u8 = (1u8 << pb8) - 1;
                    let b = data[i / 8] & mask;
                    let idx = self.bits_in_queue / 8;
                    self.data_queue.set(idx, b);
                    self.bits_in_queue += part_byte;
                    i += part_byte;
                    proof {
                        lemma_fundamental_div_mod(b_c, 8);
                        let chunk2 = m.subrange(i_c, i_c + part_byte as int);
                        assert forall|j: int| 0 <= j < part_byte as int implies chunk2[j] == (j
                            < part_byte as int && byte_bit(data@[i_c / 8], j as u8)) by {
                            lemma_split_index(i_c / 8, j);
                            assert(chunk2[j] == byte_bit(data@[(i_c + j) / 8], ((i_c + j) % 8) as u8));
                        }
                        assert forall|j: u8| j < 8 implies byte_bit(b, j) == (j < pb8 && byte_bit(
                            data@[i_c / 8],
                            j,
                        )) by {
                            crate::bitstream::lemma_mask_low_bits(data@[i_c / 8], mask, j, pb8);
                        }
                        // The queue gained exactly the fragment bits.
                        let lhs = prefix_bits(self.data_queue@, (b_c + part_byte as int) as nat);
                        let rhs = q_c + chunk2;
                        assert forall|t: int| 0 <= t < b_c + part_byte as int implies lhs[t]
                            == rhs[t] by {
                            lemma_split_index(0, t);
                            if t < b_c {
                                assert(t / 8 < b_c / 8) by (nonlinear_arith)
                                    requires
                                        8 * (t / 8) <= t,
                                        t < b_c,
                                        8 * (b_c / 8) == b_c,
                                ;
                                assert(self.data_queue@[t / 8] == dq_c[t / 8]);
                                assert(lhs[t] == q_c[t]);
                            } else {
                                let u = t - b_c;
                                lemma_split_index(b_c / 8, u);
                                assert(t / 8 == b_c / 8 && t % 8 == u);
                                assert(lhs[t] == byte_bit(b, u as u8));
                                assert(rhs[t] == chunk2[u]);
                            }
                        }
                        assert(lhs =~= rhs);
                        // Model step.
                        lemma_absorb_bits_append(st0, q0, m.take(i_c), chunk2, rate0);
                        assert(m.take(i_c + part_byte as int) =~= m.take(i_c) + chunk2);
                        lemma_absorb_bits_short(st_c, q_c, chunk2, rate0);
                        // The stored fragment is masked above its bit count.
                        lemma_split_index(b_c / 8, part_byte as int);
                        assert(self.bits_in_queue as int % 8 == part_byte as int);
                        assert(self.bits_in_queue as int / 8 == b_c / 8);
                        assert forall|j: u8|
                            self.bits_in_queue as int % 8 <= j < 8 implies !#[trigger] byte_bit(
                            self.data_queue@[self.bits_in_queue as int / 8],
                            j,
                        ) by {
                            crate::bitstream::lemma_mask_low_bits(data@[i_c / 8], mask, j, pb8);
                        }
                    }
                }
            }
        }
        proof {
            assert(m.take(data_bit_len as int) =~= m);
            self.lemma_inv_wf();
            assert(self@.queue.len() == self.bits_in_queue);
        }
        Ok(())
    }

    /// Apply the `pad10*1` rule to the queued bits, absorb the final block or
    /// blocks, and extract the first block for squeezing.
    #[verifier::loop_isolation(false)]
    #[verifier::rlimit(100)]
    fn pad_and_switch_to_squeeze(&mut self)
        requires
            old(self).inv(),
            !old(self).squeezing,
        ensures
            final(self).inv(),
            final(self).squeezing,
            final(self).state@ == spec_pad_absorb(
                old(self).state@,
                prefix_bits(old(self).data_queue@, old(self).bits_in_queue as nat),
                old(self).rate as nat,
            ),
            final(self).bits_for_squeezing == final(self).rate,
            final(self).rate == old(self).rate,
            final(self).capacity == old(self).capacity,
    {
        proof {
            assert(self.rate % 8 == 0 && 8 * (self.rate as int / 8) == self.rate as int
                && self.rate as int / 8 >= 8) by (nonlinear_arith)
                requires
                    self.rate % 64 == 0,
                    64 <= self.rate <= 1600,
            ;
        }
        let rate = self.rate;
        let rb = rate / 8;
        let biq = self.bits_in_queue;
        let ghost st_c = self.state@;
        let ghost dq_c = self.data_queue@;
        let ghost q_c = prefix_bits(dq_c, biq as nat);
        let ghost pad = pad_bits(biq as nat, rate as nat);
        proof {
            lemma_fundamental_div_mod(biq as int, 8);
            lemma_mod_division_less_than_divisor(biq as int, 8);
            assert(q_c.len() == biq);
        }
        let idx = biq / 8;
        let bit = (biq % 8) as u8;
        if biq + 1 == rate {
            // Exactly one free bit: the start pad bit fills this block; the
            // end pad bit goes into a second, otherwise all-zero block.
            proof {
                assert(idx == rb - 1 && bit == 7) by (nonlinear_arith)
                    requires
                        8 * (rb as int) == rate as int,
                        biq as int == 8 * (idx as int) + bit as int,
                        0 <= bit < 8,
                        biq as int + 1 == rate as int,
                        rb >= 8,
                ;
            }
            let v = self.data_queue[idx] | (1u8 << bit);
            self.data_queue.set(idx, v);
            proof {
                let target = q_c.push(true);
                let lhs = prefix_bits(self.data_queue@, rate as nat);
                assert forall|t: int| 0 <= t < rate as int implies lhs[t] == target[t] by {
                    lemma_split_index(0, t);
                    if t < biq as int {
                        if t / 8 == idx as int {
                            crate::bitstream::lemma_or_single_bit(dq_c[idx as int], (t % 8) as u8, bit);
                        }
                    } else {
                        assert(t == biq as int && t / 8 == idx as int && t % 8 == bit as int);
                        crate::bitstream::lemma_or_single_bit(dq_c[idx as int], bit, bit);
                    }
                }
                assert(lhs =~= target);
                lemma_block_bytes_from_bits(self.data_queue@, rate as nat, target);
            }
            self.absorb_queue();
            let ghost st_1 = self.state@;
            // Clear the queue and set only the final bit of the second block.
            let mut z: usize = 0;
            while z < rb
                invariant
                    z <= rb,
                    rb <= 200,
                    self.data_queue@.len() == 200,
                    forall|j: int| 0 <= j < z ==> self.data_queue@[j] == 0u8,
                    self.state@ == st_1,
                    self.rate == old(self).rate,
                    self.capacity == old(self).capacity,
                    self.squeezing == old(self).squeezing,
                    self.bits_in_queue == 0,
                    self.bits_for_squeezing == old(self).bits_for_squeezing,
                decreases rb - z,
            {
                self.data_queue.set(z, 0u8);
                z += 1;
            }
            let w = self.data_queue[rb - 1] | 0x80u8;
            self.data_queue.set(rb - 1, w);
            proof {
                assert(0x80u8 == (1u8 << 7u8)) by (bit_vector);
                let target2 = Seq::new((rate - 1) as nat, |i: int| false).push(true);
                let lhs2 = prefix_bits(self.data_queue@, rate as nat);
                assert forall|t: int| 0 <= t < rate as int implies lhs2[t] == target2[t] by {
                    lemma_split_index(0, t);
                    let u = (t % 8) as u8;
                    assert(lhs2[t] == byte_bit(self.data_queue@[t / 8], u));
                    lemma_fundamental_div_mod(t, 8);
                    if t / 8 == rb - 1 {
                        assert(self.data_queue@[t / 8] == w);
                        assert(w == 0u8 | 0x80u8);
                        crate::bitstream::lemma_or_single_bit(0u8, u, 7u8);
                        crate::bitstream::lemma_zero_byte_bit(u);
                        assert(byte_bit(w, u) == (u == 7));
                        assert(t == rate - 1 <==> t % 8 == 7) by (nonlinear_arith)
                            requires
                                t / 8 == rb as int - 1,
                                8 * (t / 8) + t % 8 == t,
                                0 <= t % 8 < 8,
                                8 * (rb as int) == rate as int,
                        ;
                        assert(target2[t] == (t == rate as int - 1));
                    } else {
                        assert(t / 8 < rb - 1);
                        assert(self.data_queue@[t / 8] == 0u8);
                        crate::bitstream::lemma_zero_byte_bit(u);
                        assert(!lhs2[t]);
                        assert(t < rate as int - 1);
                        assert(target2[t] == false);
                    }
                }
                assert(lhs2 =~= target2);
                lemma_block_bytes_from_bits(self.data_queue@, rate as nat, target2);
            }
            self.absorb_queue();
            proof {
                // The model absorbs the same two blocks.
                assert(pad.len() == rate as int + 1);
                assert(pad =~= pad.take(1) + pad.skip(1));
                lemma_absorb_bits_append(st_c, q_c, pad.take(1), pad.skip(1), rate as nat);
                lemma_absorb_bits_fill(st_c, q_c, pad.take(1), rate as nat);
                assert(q_c + pad.take(1) =~= q_c.push(true));
                lemma_absorb_bits_fill(st_1, Seq::<bool>::empty(), pad.skip(1), rate as nat);
                assert(Seq::<bool>::empty() + pad.skip(1) =~= Seq::new(
                    (rate - 1) as nat,
                    |i: int| false,
                ).push(true));
            }
        } else {
            // General case: zero-fill after the queued bits, set the start
            // pad bit at position `biq`, and the end pad bit at `rate - 1`.
            let start = (biq + 7) / 8;
            proof {
                lemma_fundamental_div_mod(biq as int + 7, 8);
                lemma_mod_division_less_than_divisor(biq as int + 7, 8);
                assert(idx <= start <= idx + 1 && (bit == 0 <==> start == idx)) by (nonlinear_arith)
                    requires
                        biq as int == 8 * (idx as int) + bit as int,
                        0 <= bit < 8,
                        biq as int + 7 == 8 * (start as int) + (biq as int + 7) % 8,
                        0 <= (biq as int + 7) % 8 < 8,
                ;
                assert(start <= rb) by (nonlinear_arith)
                    requires
                        biq as int + 1 < rate as int,
                        8 * (rb as int) == rate as int,
                        biq as int == 8 * (idx as int) + bit as int,
                        0 <= bit < 8,
                        idx <= start <= idx + 1,
                ;
            }
            let ghost dq_keep = self.data_queue@;
            let mut z: usize = start;
            while z < rb
                invariant
                    start <= z <= rb,
                    rb <= 200,
                    self.data_queue@.len() == 200,
                    forall|j: int| 0 <= j < start ==> self.data_queue@[j] == dq_keep[j],
                    forall|j: int| start <= j < z ==> self.data_queue@[j] == 0u8,
                    forall|j: int| z <= j < 200 ==> self.data_queue@[j] == dq_keep[j],
                    self.state@ == st_c,
                    self.rate == old(self).rate,
                    self.capacity == old(self).capacity,
                    self.squeezing == old(self).squeezing,
                    self.bits_in_queue == old(self).bits_in_queue,
                    self.bits_for_squeezing == old(self).bits_for_squeezing,
                decreases rb - z,
            {
                self.data_queue.set(z, 0u8);
                z += 1;
            }
            let v = self.data_queue[idx] | (1u8 << bit);
            self.data_queue.set(idx, v);
            let ghost dq_s = self.data_queue@;
            let w = self.data_queue[rb - 1] | 0x80u8;
            self.data_queue.set(rb - 1, w);
            proof {
                assert(0x80u8 == (1u8 << 7u8)) by (bit_vector);
                let target = q_c + pad;
                assert(pad.len() == rate as int - biq as int);
                assert(target.len() == rate as int);
                let lhs = prefix_bits(self.data_queue@, rate as nat);
                assert(8 * (rb as int - 1) + 7 == rate as int - 1);
                assert forall|t: int| 0 <= t < rate as int implies lhs[t] == target[t] by {
                    lemma_split_index(0, t);
                    let j = t / 8;
                    let u = (t % 8) as u8;
                    // The byte as it stood after the zero-fill.
                    let base: u8 = if start as int <= j { 0u8 } else { dq_keep[j] };
                    if j == rb - 1 && j == idx as int {
                        crate::bitstream::lemma_or_single_bit(base, u, bit);
                        crate::bitstream::lemma_or_single_bit(base | (1u8 << bit), u, 7u8);
                        crate::bitstream::lemma_zero_byte_bit(u);
                    } else if j == rb - 1 {
                        crate::bitstream::lemma_or_single_bit(base, u, 7u8);
                        crate::bitstream::lemma_zero_byte_bit(u);
                    } else if j == idx as int {
                        crate::bitstream::lemma_or_single_bit(base, u, bit);
                        crate::bitstream::lemma_zero_byte_bit(u);
                    } else {
                        crate::bitstream::lemma_zero_byte_bit(u);
                    }
                    if t < biq as int {
                        assert(j <= idx as int) by (nonlinear_arith)
                            requires
                                8 * j + t % 8 == t,
                                0 <= t % 8 < 8,
                                t < biq as int,
                                biq as int == 8 * (idx as int) + bit as int,
                                0 <= bit < 8,
                        ;
                        assert(target[t] == q_c[t]);
                        assert(q_c[t] == byte_bit(dq_c[j], u));
                    } else {
                        assert(target[t] == pad[t - biq as int]);
                        if t > biq as int && t < rate as int - 1 {
                            assert(j >= idx as int) by (nonlinear_arith)
                                requires
                                    8 * j + t % 8 == t,
                                    0 <= t % 8 < 8,
                                    t > biq as int,
                                    biq as int == 8 * (idx as int) + bit as int,
                                    0 <= bit < 8,
                            ;
                        }
                    }
                }
                assert(lhs =~= target);
                lemma_block_bytes_from_bits(self.data_queue@, rate as nat, target);
                lemma_absorb_bits_fill(st_c, q_c, pad, rate as nat);
            }
            self.absorb_queue();
        }
        // Extract the first block for squeezing.
        if rate == 1024 {
            extract_1024_bits(&self.state, &mut self.data_queue);
        } else {
            proof {
                assert(self.rate as int / 64 * 8 == self.rate as int / 8 && self.rate as int / 64
                    <= 25) by (nonlinear_arith)
                    requires
                        self.rate % 64 == 0,
                        64 <= self.rate <= 1600,
                ;
            }
            extract(&self.state, &mut self.data_queue, self.rate / 64);
        }
        self.bits_for_squeezing = rate;
        self.squeezing = true;
        proof {
            assert(self.data_queue@.take(rb as int) =~= self.state@.take(rb as int));
        }
    }

    /// Write `out_len_bytes` bytes of digest into the front of `out`.  The
    /// first call pads the message and switches the machine to squeezing;
    /// every call delivers the next bytes of the output stream, permuting the
    /// state whenever a whole rate-sized block has been delivered.  Fails
    /// exactly when `out` is shorter than the requested length.
    #[verifier::loop_isolation(false)]
    #[verifier::rlimit(100)]
    pub fn squeeze(&mut self, out: &mut Vec<u8>, out_len_bytes: usize) -> (r: Result<
        (),
        SpongeError,
    >)
        requires
            old(self).inv(),
        ensures
            final(self).inv(),
            Self::wf(final(self)@),
            final(self)@.rate == old(self)@.rate,
            final(self)@.capacity == old(self)@.capacity,
            final(out)@.len() == old(out)@.len(),
            r == Ok::<(), SpongeError>(()) <==> out_len_bytes <= old(out)@.len(),
            r == Ok::<(), SpongeError>(()) || r.is_err(),
            r.is_err() ==> r == Err::<(), SpongeError>(SpongeError::InvalidLength) && final(self)@
                == old(self)@ && final(out)@ == old(out)@,
            r == Ok::<(), SpongeError>(()) ==> final(self)@.squeezing && {
                let sst = squeeze_start_state(old(self)@);
                let c = squeeze_start_offset(old(self)@);
                let rbn = old(self)@.rate / 8;
                &&& final(out)@ == Seq::new(
                    out_len_bytes as nat,
                    |t: int| stream_byte(sst, rbn, (c + t) as nat),
                ) + old(out)@.skip(out_len_bytes as int)
                &&& forall|j: nat|
                    j >= final(self)@.squeezed ==> #[trigger] stream_byte(
                        final(self)@.state,
                        rbn,
                        j,
                    ) == stream_byte(
                        sst,
                        rbn,
                        (c + out_len_bytes + (j - final(self)@.squeezed)) as nat,
                    )
            },
    {
        if out_len_bytes > out.len() {
            return Err(SpongeError::InvalidLength);
        }
        proof {
            assert(self.rate % 8 == 0 && 8 * (self.rate as int / 8) == self.rate as int
                && self.rate as int / 8 >= 8) by (nonlinear_arith)
                requires
                    self.rate % 64 == 0,
                    64 <= self.rate <= 1600,
            ;
        }
        if !self.squeezing {
            self.pad_and_switch_to_squeeze();
        }
        let rb = self.rate / 8;
        let ghost sst = squeeze_start_state(old(self)@);
        let ghost c = squeeze_start_offset(old(self)@);
        let ghost rbn = rb as nat;
        proof {
            assert(self.state@ == sst);
            assert(((self.rate - self.bits_for_squeezing) as int) / 8 == c);
        }
        let mut i: usize = 0;
        while i < out_len_bytes
            invariant
                self.inv(),
                self.squeezing,
                self.rate == old(self).rate,
                self.capacity == old(self).capacity,
                self.rate % 8 == 0,
                rb == self.rate / 8,
                8 * (rb as int) == self.rate as int,
                8 <= rb <= 200,
                rbn == rb as nat,
                i <= out_len_bytes,
                out_len_bytes <= out@.len(),
                out@.len() == old(out)@.len(),
                forall|t: int| 0 <= t < i ==> out@[t] == stream_byte(sst, rbn, (c + t) as nat),
                forall|t: int| i <= t < out@.len() ==> out@[t] == old(out)@[t],
                8 * (((self.rate - self.bits_for_squeezing) as int) / 8) == self.rate as int
                    - self.bits_for_squeezing as int,
                ({
                    let sq = ((self.rate - self.bits_for_squeezing) as int) / 8;
                    forall|j: nat|
                        j >= sq ==> #[trigger] stream_byte(self.state@, rbn, j) == stream_byte(
                            sst,
                            rbn,
                            (c + i + (j - sq)) as nat,
                        )
                }),
            decreases out_len_bytes - i,
        {
            let ghost sq_pre = ((self.rate - self.bits_for_squeezing) as int) / 8;
            if self.bits_for_squeezing == 0 {
                let ghost st_old = self.state@;
                permute(&mut self.state);
                proof {
                    assert(sq_pre == rb as int);
                    assert forall|j: nat| j >= 0 implies #[trigger] stream_byte(
                        self.state@,
                        rbn,
                        j,
                    ) == stream_byte(sst, rbn, (c + i + j) as nat) by {
                        lemma_stream_shift(st_old, rbn, j);
                        assert(stream_byte(st_old, rbn, j + rbn) == stream_byte(
                            sst,
                            rbn,
                            (c + i + ((j + rbn) - sq_pre)) as nat,
                        ));
                    }
                }
                if self.rate == 1024 {
                    extract_1024_bits(&self.state, &mut self.data_queue);
                } else {
                    proof {
                        assert(self.rate as int / 64 * 8 == self.rate as int / 8 && self.rate as int
                            / 64 <= 25) by (nonlinear_arith)
                            requires
                                self.rate % 64 == 0,
                                64 <= self.rate <= 1600,
                        ;
                    }
                    extract(&self.state, &mut self.data_queue, self.rate / 64);
                }
                self.bits_for_squeezing = self.rate;
                proof {
                    assert(self.data_queue@.take(rb as int) =~= self.state@.take(rb as int));
                }
            }
            let mut part = self.bits_for_squeezing / 8;
            proof {
                assert(8 * ((self.bits_for_squeezing as int) / 8) == self.bits_for_squeezing as int)
                    by (nonlinear_arith)
                    requires
                        self.bits_for_squeezing % 8 == 0,
                        self.bits_for_squeezing >= 0,
                ;
            }
            if part > out_len_bytes - i {
                part = out_len_bytes - i;
            }
            let off = (self.rate - self.bits_for_squeezing) / 8;
            let ghost sq = ((self.rate - self.bits_for_squeezing) as int) / 8;
            proof {
                assert(off as int + part as int <= rb as int);
            }
            let mut t: usize = 0;
            while t < part
                invariant
                    t <= part,
                    i + part <= out_len_bytes,
                    out_len_bytes <= out@.len(),
                    out@.len() == old(out)@.len(),
                    off as int + part as int <= rb as int,
                    rb <= 200,
                    self.data_queue@.len() == 200,
                    forall|x: int| 0 <= x < i ==> out@[x] == stream_byte(sst, rbn, (c + x) as nat),
                    forall|x: int| i <= x < i + t ==> out@[x] == self.data_queue@[off + x - i],
                    forall|x: int| i + t <= x < out@.len() ==> out@[x] == old(out)@[x],
                decreases part - t,
            {
                let b = self.data_queue[off + t];
                out.set(i + t, b);
                t += 1;
            }
            proof {
                // Each copied byte is the next byte of the stream.
                assert(sq == off as int);
                assert forall|x: int| i <= x < i + part implies out@[x] == stream_byte(
                    sst,
                    rbn,
                    (c + x) as nat,
                ) by {
                    let j = (off as int + x - i) as nat;
                    assert(self.data_queue@[off + x - i] == self.state@.take(rb as int)[off + x
                        - i]);
                    vstd::arithmetic::div_mod::lemma_basic_div(j as int, rbn as int);
                    vstd::arithmetic::div_mod::lemma_small_mod(j, rbn);
                    assert(states_after(self.state@, 0) == self.state@);
                    assert(stream_byte(self.state@, rbn, j) == self.state@[j as int]);
                    assert(stream_byte(self.state@, rbn, j) == stream_byte(
                        sst,
                        rbn,
                        (c + i + (j - sq)) as nat,
                    ));
                }
            }
            let consumed = part * 8;
            self.bits_for_squeezing -= consumed;
            i += part;
            proof {
                let sq2 = ((self.rate - self.bits_for_squeezing) as int) / 8;
                assert(8 * sq2 == self.rate as int - self.bits_for_squeezing as int)
                    by (nonlinear_arith)
                    requires
                        self.rate % 8 == 0,
                        self.bits_for_squeezing % 8 == 0,
                        0 <= self.bits_for_squeezing <= self.rate,
                        sq2 == ((self.rate - self.bits_for_squeezing) as int) / 8,
                ;
                assert(sq2 == sq + part as int);
                assert forall|j: nat| j >= sq2 implies #[trigger] stream_byte(
                    self.state@,
                    rbn,
                    j,
                ) == stream_byte(sst, rbn, (c + i + (j - sq2)) as nat) by {
                    assert(stream_byte(self.state@, rbn, j) == stream_byte(
                        sst,
                        rbn,
                        (c + (i - part as int) + (j - sq)) as nat,
                    ));
                }
            }
        }
        proof {
            assert(out@ =~= Seq::new(
                out_len_bytes as nat,
                |t: int| stream_byte(sst, rbn, (c + t) as nat),
            ) + old(out)@.skip(out_len_bytes as int));
            self.lemma_inv_wf();
        }
        Ok(())
    }

    /// Zero the state and queue and return to the absorbing phase; the rate
    /// and capacity are instance configuration and are retained.
    pub fn reset(&mut self)
        requires
            old(self).inv(),
        ensures
            final(self).inv(),
            Self::wf(final(self)@),
            final(self)@.rate == old(self)@.rate,
            final(self)@.capacity == old(self)@.capacity,
            final(self)@.state == zero_state(),
            final(self)@.queue == Seq::<bool>::empty(),
            !final(self)@.squeezing,
    {
        self.state = vec![0u8; 200];
        self.data_queue = vec![0u8; 200];
        self.bits_in_queue = 0;
        self.bits_for_squeezing = 0;
        self.squeezing = false;
        proof {
            assert(self.state@ =~= zero_state());
            assert(self@.queue =~= Seq::<bool>::empty());
            self.lemma_inv_wf();
        }
    }

    /// The 200 bytes of the permutation state.
    pub fn state_bytes(&self) -> (r: &Vec<u8>)
        requires
            self.inv(),
        ensures
            r@ == self@.state,
            r@.len() == 200,
    {
        &self.state
    }

    /// The configured rate in bits.
    pub fn rate(&self) -> (r: usize)
        ensures
            r == self@.rate,
    {
        self.rate
    }

    /// The configured capacity in bits.
    pub fn capacity(&self) -> (r: usize)
        ensures
            r == self@.capacity,
    {
        self.capacity
    }
}

/// The digest of message bits `m` at the given rate: absorb into the all-zero
/// state, pad, and take the first `n` bytes of the squeeze stream.
pub open spec fn spec_digest(m: Seq<bool>, rate: nat, n: nat) -> Seq<u8>
    recommends
        rate % 8 == 0,
        64 <= rate <= 1600,
{
    let ab = absorb_bits(zero_state(), Seq::<bool>::empty(), m, rate);
    let st = spec_pad_absorb(ab.0, ab.1, rate);
    Seq::new(n, |t: int| stream_byte(st, rate / 8, t as nat))
}

/// Determinism: the digest is a function of the message, the rate, and the
/// requested length alone, so hashing the same message twice with fresh
/// instances of the same configuration yields identical output bytes.
pub proof fn lemma_determinism(m1: Seq<bool>, m2: Seq<bool>, rate: nat, n: nat)
    requires
        m1 == m2,
    ensures
        spec_digest(m1, rate, n) == spec_digest(m2, rate, n),
{
}

/// Incremental absorption equivalence: feeding a message in two calls leaves
/// the sponge exactly where feeding the concatenation in one call does, so
/// any way of splitting a message into chunks yields the same digest.
pub proof fn lemma_digest_incremental(m1: Seq<bool>, m2: Seq<bool>, rate: nat, n: nat)
    ensures
        ({
            let ab1 = absorb_bits(zero_state(), Seq::<bool>::empty(), m1, rate);
            let ab2 = absorb_bits(ab1.0, ab1.1, m2, rate);
            let st = spec_pad_absorb(ab2.0, ab2.1, rate);
            Seq::new(n, |t: int| stream_byte(st, rate / 8, t as nat))
        }) == spec_digest(m1 + m2, rate, n),
{
    lemma_absorb_bits_append(zero_state(), Seq::<bool>::empty(), m1, m2, rate);
}

/// Padding a message that ends exactly on a block boundary absorbs one whole
/// extra block consisting of the padding alone.
pub proof fn lemma_pad_aligned(st: Seq<u8>, rate: nat)
    requires
        rate >= 2,
    ensures
        spec_pad_absorb(st, Seq::<bool>::empty(), rate) == spec_absorb_block(
            st,
            bytes_of_bits(pad_bits(0, rate)),
        ),
{
    let pad = pad_bits(0, rate);
    lemma_absorb_bits_fill(st, Seq::<bool>::empty(), pad, rate);
    assert(Seq::<bool>::empty() + pad =~= pad);
}

/// Padding with exactly one free bit of queue space: the start pad bit
/// completes the current block, and the end pad bit is absorbed as a second,
/// otherwise all-zero block.
pub proof fn lemma_pad_one_free_bit(st: Seq<u8>, q: Seq<bool>, rate: nat)
    requires
        q.len() + 1 == rate,
        rate >= 2,
    ensures
        spec_pad_absorb(st, q, rate) == spec_absorb_block(
            spec_absorb_block(st, bytes_of_bits(q.push(true))),
            bytes_of_bits(Seq::new((rate - 1) as nat, |i: int| false).push(true)),
        ),
{
    let pad = pad_bits(q.len(), rate);
    assert(pad.len() == rate + 1);
    assert(pad =~= pad.take(1) + pad.skip(1));
    lemma_absorb_bits_append(st, q, pad.take(1), pad.skip(1), rate);
    lemma_absorb_bits_fill(st, q, pad.take(1), rate);
    assert(q + pad.take(1) =~= q.push(true));
    let st1 = spec_absorb_block(st, bytes_of_bits(q.push(true)));
    lemma_absorb_bits_fill(st1, Seq::<bool>::empty(), pad.skip(1), rate);
    assert(Seq::<bool>::empty() + pad.skip(1) =~= Seq::new((rate - 1) as nat, |i: int| false).push(
        true,
    ));
}

/// Output length independence: squeezing `n1 + n2` bytes at once yields the
/// same bytes as squeezing `n1` and then `n2`, wherever in the stream the
/// instance stands, so long outputs agree with repeated block-sized squeezes.
pub proof fn lemma_squeeze_split(st: Seq<u8>, rate_bytes: nat, c: nat, n1: nat, n2: nat)
    ensures
        Seq::new((n1 + n2) as nat, |t: int| stream_byte(st, rate_bytes, (c + t) as nat)) == Seq::new(
            n1,
            |t: int| stream_byte(st, rate_bytes, (c + t) as nat),
        ) + Seq::new(n2, |t: int| stream_byte(st, rate_bytes, (c + n1 + t) as nat)),
{
    assert(Seq::new((n1 + n2) as nat, |t: int| stream_byte(st, rate_bytes, (c + t) as nat))
        =~= Seq::new(n1, |t: int| stream_byte(st, rate_bytes, (c + t) as nat)) + Seq::new(
        n2,
        |t: int| stream_byte(st, rate_bytes, (c + n1 + t) as nat),
    ));
}

/// Absorb one whole block at the given rate, dispatching to the specialized
/// entry points for the standard rates.
#[verifier::rlimit(50)]
fn absorb_direct(state: &mut Vec<u8>, block: &[u8], rate: usize)
    requires
        old(state).len() == 200,
        rate % 64 == 0,
        64 <= rate <= 1600,
        block.len() == rate / 8,
    ensures
        final(state)@ == spec_absorb_block(old(state)@, block@),
        final(state)@.len() == 200,
{
    proof {
        assert(block@.take(rate as int / 8) =~= block@);
    }
    match rate {
        576 => absorb_576_bits(state, block),
        832 => absorb_832_bits(state, block),
        1024 => absorb_1024_bits(state, block),
        1088 => absorb_1088_bits(state, block),
        1152 => absorb_1152_bits(state, block),
        1344 => absorb_1344_bits(state, block),
        _ => {
            let lane_count = rate / 64;
            proof {
                assert(rate / 64 * 8 == rate / 8 && rate / 64 <= 25 && rate / 64 * 8 <= rate)
                    by (nonlinear_arith)
                    requires
                        rate % 64 == 0,
                        64 <= rate <= 1600,
                ;
            }
            absorb(state, block, lane_count);
        },
    }
}

} // verus!
