//! The Keccak-f[1600] permutation and the block-level absorb/extract helpers.
//!
//! The 1600-bit state is kept as 200 bytes and reinterpreted, for the duration
//! of one permutation, as 25 little-endian 64-bit lanes; lane (x, y) sits at
//! linear index `(x % 5) + 5 * (y % 5)`.  Each of the five step mappings has a
//! spec-level definition over `Seq<u64>` that follows the published Keccak
//! equations, and an executable counterpart proved equal to it.

use vstd::prelude::*;

verus! {

/// Left rotation of a 64-bit lane; a rotation by 0 returns the lane unchanged.
pub open spec fn rotl(a: u64, n: u64) -> u64
    recommends
        n < 64,
{
    if n == 0 {
        a
    } else {
        (a << n) | (a >> ((64 - n) as u64))
    }
}

/// The fixed rho rotation offset of the lane at linear index `i`.
pub open spec fn rho_offset(i: int) -> u64 {
    if i == 0 {
        0
    } else if i == 1 {
        1
    } else if i == 2 {
        62
    } else if i == 3 {
        28
    } else if i == 4 {
        27
    } else if i == 5 {
        36
    } else if i == 6 {
        44
    } else if i == 7 {
        6
    } else if i == 8 {
        55
    } else if i == 9 {
        20
    } else if i == 10 {
        3
    } else if i == 11 {
        10
    } else if i == 12 {
        43
    } else if i == 13 {
        25
    } else if i == 14 {
        39
    } else if i == 15 {
        41
    } else if i == 16 {
        45
    } else if i == 17 {
        15
    } else if i == 18 {
        21
    } else if i == 19 {
        8
    } else if i == 20 {
        18
    } else if i == 21 {
        2
    } else if i == 22 {
        61
    } else if i == 23 {
        56
    } else {
        14
    }
}

/// The fixed 64-bit round constant of round `r`.
pub open spec fn round_constant(r: int) -> u64 {
    if r == 0 {
        0x0000000000000001
    } else if r == 1 {
        0x0000000000008082
    } else if r == 2 {
        0x800000000000808A
    } else if r == 3 {
        0x8000000080008000
    } else if r == 4 {
        0x000000000000808B
    } else if r == 5 {
        0x0000000080000001
    } else if r == 6 {
        0x8000000080008081
    } else if r == 7 {
        0x8000000000008009
    } else if r == 8 {
        0x000000000000008A
    } else if r == 9 {
        0x0000000000000088
    } else if r == 10 {
        0x0000000080008009
    } else if r == 11 {
        0x000000008000000A
    } else if r == 12 {
        0x000000008000808B
    } else if r == 13 {
        0x800000000000008B
    } else if r == 14 {
        0x8000000000008089
    } else if r == 15 {
        0x8000000000008003
    } else if r == 16 {
        0x8000000000008002
    } else if r == 17 {
        0x8000000000000080
    } else if r == 18 {
        0x000000000000800A
    } else if r == 19 {
        0x800000008000000A
    } else if r == 20 {
        0x8000000080008081
    } else if r == 21 {
        0x8000000000008080
    } else if r == 22 {
        0x0000000080000001
    } else {
        0x8000000080008008
    }
}

/// The parity of column `x`: the XOR of its five lanes.
pub open spec fn theta_c(a: Seq<u64>, x: int) -> u64
    recommends
        a.len() == 25,
        0 <= x < 5,
{
    a[x] ^ a[x + 5] ^ a[x + 10] ^ a[x + 15] ^ a[x + 20]
}

/// The theta adjustment of column `x`.
pub open spec fn theta_d(a: Seq<u64>, x: int) -> u64
    recommends
        a.len() == 25,
        0 <= x < 5,
{
    rotl(theta_c(a, (x + 1) % 5), 1) ^ theta_c(a, (x + 4) % 5)
}

/// theta: each lane is XORed with the adjustment of its column.
pub open spec fn spec_theta(a: Seq<u64>) -> Seq<u64>
    recommends
        a.len() == 25,
{
    Seq::new(25, |i: int| a[i] ^ theta_d(a, i % 5))
}

/// rho: each lane is rotated by its fixed offset.
pub open spec fn spec_rho(a: Seq<u64>) -> Seq<u64>
    recommends
        a.len() == 25,
{
    Seq::new(25, |i: int| rotl(a[i], rho_offset(i)))
}

/// The lane that pi moves to linear index `i`: position (x, y) receives the
/// lane of position ((x + 3y) % 5, x).
pub open spec fn pi_source(i: int) -> int
    recommends
        0 <= i < 25,
{
    (i % 5 + 3 * (i / 5)) % 5 + 5 * (i % 5)
}

/// pi: the lanes are rearranged, lane (x, y) moving to position (y, (2x + 3y) % 5).
pub open spec fn spec_pi(a: Seq<u64>) -> Seq<u64>
    recommends
        a.len() == 25,
{
    Seq::new(25, |i: int| a[pi_source(i)])
}

/// chi: each lane is combined with the two lanes to its right in the same row,
/// all five outputs of a row computed from the pre-chi row.
pub open spec fn spec_chi(a: Seq<u64>) -> Seq<u64>
    recommends
        a.len() == 25,
{
    Seq::new(
        25,
        |i: int| a[i] ^ ((!a[5 * (i / 5) + (i % 5 + 1) % 5]) & a[5 * (i / 5) + (i % 5 + 2) % 5]),
    )
}

/// iota: the round constant is XORed into lane (0, 0).
pub open spec fn spec_iota(a: Seq<u64>, r: int) -> Seq<u64>
    recommends
        a.len() == 25,
        0 <= r < 24,
{
    a.update(0, a[0] ^ round_constant(r))
}

/// One round: theta, rho, pi, chi, iota in that order.
pub open spec fn spec_round(a: Seq<u64>, r: int) -> Seq<u64>
    recommends
        a.len() == 25,
        0 <= r < 24,
{
    spec_iota(spec_chi(spec_pi(spec_rho(spec_theta(a)))), r)
}

/// The first `n` rounds applied in order, starting from round 0.
pub open spec fn spec_rounds(a: Seq<u64>, n: nat) -> Seq<u64>
    recommends
        a.len() == 25,
        n <= 24,
    decreases n,
{
    if n == 0 {
        a
    } else {
        spec_round(spec_rounds(a, (n - 1) as nat), n - 1)
    }
}

/// The full Keccak-f[1600] permutation on 25 lanes: 24 rounds.
pub open spec fn spec_keccak_f(a: Seq<u64>) -> Seq<u64>
    recommends
        a.len() == 25,
{
    spec_rounds(a, 24)
}

/// The 64-bit lane packed little-endian from bytes `8i .. 8i + 8` of `s`.
pub open spec fn lane_at(s: Seq<u8>, i: int) -> u64
    recommends
        0 <= i,
        8 * i + 8 <= s.len(),
{
    (s[8 * i] as u64) | ((s[8 * i + 1] as u64) << 8u64) | ((s[8 * i + 2] as u64) << 16u64) | ((s[8
        * i + 3] as u64) << 24u64) | ((s[8 * i + 4] as u64) << 32u64) | ((s[8 * i + 5] as u64)
        << 40u64) | ((s[8 * i + 6] as u64) << 48u64) | ((s[8 * i + 7] as u64) << 56u64)
}

/// A byte buffer read as little-endian 64-bit lanes.
pub open spec fn lanes_of_bytes(s: Seq<u8>) -> Seq<u64>
    recommends
        s.len() % 8 == 0,
{
    Seq::new(s.len() / 8, |i: int| lane_at(s, i))
}

/// Byte `j` (little-endian) of lane `l`.
pub open spec fn lane_byte(l: u64, j: int) -> u8
    recommends
        0 <= j < 8,
{
    ((l >> ((8 * j) as u64)) & 0xff) as u8
}

/// Lanes written back as little-endian bytes.
pub open spec fn bytes_of_lanes(l: Seq<u64>) -> Seq<u8> {
    Seq::new(l.len() * 8, |i: int| lane_byte(l[i / 8], i % 8))
}

/// Keccak-f[1600] on the 200-byte state: reinterpret as lanes, permute,
/// write back in the same little-endian layout.
pub open spec fn spec_keccak_f_bytes(s: Seq<u8>) -> Seq<u8>
    recommends
        s.len() == 200,
{
    bytes_of_lanes(spec_keccak_f(lanes_of_bytes(s)))
}

/// The state after XORing a block into its leading bytes.
pub open spec fn xor_block(st: Seq<u8>, block: Seq<u8>) -> Seq<u8>
    recommends
        block.len() <= st.len(),
{
    Seq::new(st.len(), |i: int| if i < block.len() { st[i] ^ block[i] } else { st[i] })
}

/// The state after absorbing one rate-sized block: XOR, then permute.
pub open spec fn spec_absorb_block(st: Seq<u8>, block: Seq<u8>) -> Seq<u8>
    recommends
        st.len() == 200,
        block.len() <= 200,
{
    spec_keccak_f_bytes(xor_block(st, block))
}

/// Left rotation of a 64-bit lane.
fn rol64(a: u64, n: u64) -> (r: u64)
    requires
        n < 64,
    ensures
        r == rotl(a, n),
{
    if n == 0 {
        a
    } else {
        (a << n) | (a >> (64 - n))
    }
}

/// The rho rotation offset of the lane at linear index `i`.
fn rho_offset_of(i: usize) -> (r: u64)
    requires
        i < 25,
    ensures
        r == rho_offset(i as int),
        r < 64,
{
    if i == 0 {
        0
    } else if i == 1 {
        1
    } else if i == 2 {
        62
    } else if i == 3 {
        28
    } else if i == 4 {
        27
    } else if i == 5 {
        36
    } else if i == 6 {
        44
    } else if i == 7 {
        6
    } else if i == 8 {
        55
    } else if i == 9 {
        20
    } else if i == 10 {
        3
    } else if i == 11 {
        10
    } else if i == 12 {
        43
    } else if i == 13 {
        25
    } else if i == 14 {
        39
    } else if i == 15 {
        41
    } else if i == 16 {
        45
    } else if i == 17 {
        15
    } else if i == 18 {
        21
    } else if i == 19 {
        8
    } else if i == 20 {
        18
    } else if i == 21 {
        2
    } else if i == 22 {
        61
    } else if i == 23 {
        56
    } else {
        14
    }
}

/// The round constant of round `r`.
fn round_constant_of(r: usize) -> (c: u64)
    requires
        r < 24,
    ensures
        c == round_constant(r as int),
{
    if r == 0 {
        0x0000000000000001
    } else if r == 1 {
        0x0000000000008082
    } else if r == 2 {
        0x800000000000808A
    } else if r == 3 {
        0x8000000080008000
    } else if r == 4 {
        0x000000000000808B
    } else if r == 5 {
        0x0000000080000001
    } else if r == 6 {
        0x8000000080008081
    } else if r == 7 {
        0x8000000000008009
    } else if r == 8 {
        0x000000000000008A
    } else if r == 9 {
        0x0000000000000088
    } else if r == 10 {
        0x0000000080008009
    } else if r == 11 {
        0x000000008000000A
    } else if r == 12 {
        0x000000008000808B
    } else if r == 13 {
        0x800000000000008B
    } else if r == 14 {
        0x8000000000008089
    } else if r == 15 {
        0x8000000000008003
    } else if r == 16 {
        0x8000000000008002
    } else if r == 17 {
        0x8000000000000080
    } else if r == 18 {
        0x000000000000800A
    } else if r == 19 {
        0x800000008000000A
    } else if r == 20 {
        0x8000000080008081
    } else if r == 21 {
        0x8000000000008080
    } else if r == 22 {
        0x0000000080000001
    } else {
        0x8000000080008008
    }
}

/// The theta step mapping.
#[verifier::loop_isolation(false)]
pub fn theta(a: &mut Vec<u64>)
    requires
        old(a).len() == 25,
    ensures
        final(a)@ == spec_theta(old(a)@),
{
    let mut c: Vec<u64> = Vec::new();
    let mut x: usize = 0;
    while x < 5
        invariant
            c@.len() == x,
            x <= 5,
            forall|j: int| 0 <= j < x ==> c@[j] == theta_c(a@, j),
        decreases 5 - x,
    {
        c.push(a[x] ^ a[x + 5] ^ a[x + 10] ^ a[x + 15] ^ a[x + 20]);
        x += 1;
    }
    let mut d: Vec<u64> = Vec::new();
    let mut x: usize = 0;
    while x < 5
        invariant
            d@.len() == x,
            x <= 5,
            forall|j: int| 0 <= j < x ==> d@[j] == theta_d(a@, j),
        decreases 5 - x,
    {
        d.push(rol64(c[(x + 1) % 5], 1) ^ c[(x + 4) % 5]);
        x += 1;
    }
    let mut out: Vec<u64> = Vec::new();
    let mut i: usize = 0;
    while i < 25
        invariant
            out@.len() == i,
            i <= 25,
            forall|j: int| 0 <= j < i ==> out@[j] == spec_theta(a@)[j],
        decreases 25 - i,
    {
        out.push(a[i] ^ d[i % 5]);
        i += 1;
    }
    proof {
        assert(out@ =~= spec_theta(a@));
    }
    *a = out;
}

/// The rho step mapping.
#[verifier::loop_isolation(false)]
pub fn rho(a: &mut Vec<u64>)
    requires
        old(a).len() == 25,
    ensures
        final(a)@ == spec_rho(old(a)@),
{
    let mut out: Vec<u64> = Vec::new();
    let mut i: usize = 0;
    while i < 25
        invariant
            out@.len() == i,
            i <= 25,
            forall|j: int| 0 <= j < i ==> out@[j] == spec_rho(a@)[j],
        decreases 25 - i,
    {
        out.push(rol64(a[i], rho_offset_of(i)));
        i += 1;
    }
    proof {
        assert(out@ =~= spec_rho(a@));
    }
    *a = out;
}

/// The pi step mapping; a true permutation of the lanes, computed from a full
/// snapshot of the input.
#[verifier::loop_isolation(false)]
pub fn pi(a: &mut Vec<u64>)
    requires
        old(a).len() == 25,
    ensures
        final(a)@ == spec_pi(old(a)@),
{
    let mut out: Vec<u64> = Vec::new();
    let mut i: usize = 0;
    while i < 25
        invariant
            out@.len() == i,
            i <= 25,
            forall|j: int| 0 <= j < i ==> out@[j] == spec_pi(a@)[j],
        decreases 25 - i,
    {
        let src = (i % 5 + 3 * (i / 5)) % 5 + 5 * (i % 5);
        out.push(a[src]);
        i += 1;
    }
    proof {
        assert(out@ =~= spec_pi(a@));
    }
    *a = out;
}

/// The chi step mapping; the five outputs of each row are derived from the
/// unmodified input row.
#[verifier::loop_isolation(false)]
pub fn chi(a: &mut Vec<u64>)
    requires
        old(a).len() == 25,
    ensures
        final(a)@ == spec_chi(old(a)@),
{
    let mut out: Vec<u64> = Vec::new();
    let mut i: usize = 0;
    while i < 25
        invariant
            out@.len() == i,
            i <= 25,
            forall|j: int| 0 <= j < i ==> out@[j] == spec_chi(a@)[j],
        decreases 25 - i,
    {
        let row = 5 * (i / 5);
        out.push(a[i] ^ ((!a[row + (i % 5 + 1) % 5]) & a[row + (i % 5 + 2) % 5]));
        i += 1;
    }
    proof {
        assert(out@ =~= spec_chi(a@));
    }
    *a = out;
}

/// The iota step mapping for round `round`.
pub fn iota(a: &mut Vec<u64>, round: usize)
    requires
        old(a).len() == 25,
        round < 24,
    ensures
        final(a)@ == spec_iota(old(a)@, round as int),
{
    let c = round_constant_of(round);
    let v = a[0] ^ c;
    a.set(0, v);
}

/// All 24 rounds of Keccak-f[1600] on the lane array.
#[verifier::loop_isolation(false)]
pub fn permute_on_words(state: &mut Vec<u64>)
    requires
        old(state).len() == 25,
    ensures
        final(state)@ == spec_keccak_f(old(state)@),
{
    let ghost a0 = state@;
    let mut r: usize = 0;
    while r < 24
        invariant
            r <= 24,
            state@.len() == 25,
            state@ == spec_rounds(a0, r as nat),
        decreases 24 - r,
    {
        theta(state);
        rho(state);
        pi(state);
        chi(state);
        iota(state, r);
        r += 1;
        proof {
            assert(state@ == spec_rounds(a0, r as nat));
        }
    }
}

/// The 200-byte state read as 25 little-endian 64-bit lanes.
#[verifier::loop_isolation(false)]
pub fn bytes_to_lanes(s: &Vec<u8>) -> (v: Vec<u64>)
    requires
        s.len() == 200,
    ensures
        v@ == lanes_of_bytes(s@),
{
    let mut v: Vec<u64> = Vec::new();
    let mut i: usize = 0;
    while i < 25
        invariant
            v@.len() == i,
            i <= 25,
            forall|j: int| 0 <= j < i ==> v@[j] == lane_at(s@, j),
        decreases 25 - i,
    {
        let b = 8 * i;
        v.push(
            (s[b] as u64) | ((s[b + 1] as u64) << 8u64) | ((s[b + 2] as u64) << 16u64) | ((s[b + 3]
                as u64) << 24u64) | ((s[b + 4] as u64) << 32u64) | ((s[b + 5] as u64) << 40u64) | ((
            s[b + 6] as u64) << 48u64) | ((s[b + 7] as u64) << 56u64),
        );
        i += 1;
    }
    proof {
        assert(v@ =~= lanes_of_bytes(s@));
    }
    v
}

/// 25 lanes written back as 200 little-endian bytes.
#[verifier::loop_isolation(false)]
pub fn lanes_to_bytes(l: &Vec<u64>) -> (v: Vec<u8>)
    requires
        l.len() == 25,
    ensures
        v@ == bytes_of_lanes(l@),
{
    let mut v: Vec<u8> = Vec::new();
    let mut i: usize = 0;
    while i < 200
        invariant
            v@.len() == i,
            i <= 200,
            forall|j: int| 0 <= j < i ==> v@[j] == bytes_of_lanes(l@)[j],
        decreases 200 - i,
    {
        v.push(((l[i / 8] >> ((8 * (i % 8)) as u64)) & 0xff) as u8);
        i += 1;
    }
    proof {
        assert(v@ =~= bytes_of_lanes(l@));
    }
    v
}

/// Keccak-f[1600] on the 200-byte state.
pub fn permute(state: &mut Vec<u8>)
    requires
        old(state).len() == 200,
    ensures
        final(state)@ == spec_keccak_f_bytes(old(state)@),
        final(state)@.len() == 200,
{
    let mut lanes = bytes_to_lanes(state);
    permute_on_words(&mut lanes);
    *state = lanes_to_bytes(&lanes);
}

/// XOR the first `data_len_bytes` bytes of `data` into the state, then permute.
#[verifier::loop_isolation(false)]
fn permute_after_xor(state: &mut Vec<u8>, data: &[u8], data_len_bytes: usize)
    requires
        old(state).len() == 200,
        data_len_bytes <= data.len(),
        data_len_bytes <= 200,
    ensures
        final(state)@ == spec_absorb_block(old(state)@, data@.take(data_len_bytes as int)),
        final(state)@.len() == 200,
{
    let ghost st0 = state@;
    let mut i: usize = 0;
    while i < data_len_bytes
        invariant
            i <= data_len_bytes,
            state@.len() == 200,
            forall|j: int| 0 <= j < i ==> state@[j] == (st0[j] ^ data@[j]),
            forall|j: int| i <= j < 200 ==> state@[j] == st0[j],
        decreases data_len_bytes - i,
    {
        let b = state[i] ^ data[i];
        state.set(i, b);
        i += 1;
    }
    proof {
        assert(state@ =~= xor_block(st0, data@.take(data_len_bytes as int)));
    }
    permute(state);
}

/// Absorb one 576-bit block: XOR its 72 bytes into the state and permute.
pub fn absorb_576_bits(state: &mut Vec<u8>, data: &[u8])
    requires
        old(state).len() == 200,
        data.len() >= 72,
    ensures
        final(state)@ == spec_absorb_block(old(state)@, data@.take(72)),
        final(state)@.len() == 200,
{
    permute_after_xor(state, data, 72);
}

/// Absorb one 832-bit block: XOR its 104 bytes into the state and permute.
pub fn absorb_832_bits(state: &mut Vec<u8>, data: &[u8])
    requires
        old(state).len() == 200,
        data.len() >= 104,
    ensures
        final(state)@ == spec_absorb_block(old(state)@, data@.take(104)),
        final(state)@.len() == 200,
{
    permute_after_xor(state, data, 104);
}

/// Absorb one 1024-bit block: XOR its 128 bytes into the state and permute.
pub fn absorb_1024_bits(state: &mut Vec<u8>, data: &[u8])
    requires
        old(state).len() == 200,
        data.len() >= 128,
    ensures
        final(state)@ == spec_absorb_block(old(state)@, data@.take(128)),
        final(state)@.len() == 200,
{
    permute_after_xor(state, data, 128);
}

/// Absorb one 1088-bit block: XOR its 136 bytes into the state and permute.
pub fn absorb_1088_bits(state: &mut Vec<u8>, data: &[u8])
    requires
        old(state).len() == 200,
        data.len() >= 136,
    ensures
        final(state)@ == spec_absorb_block(old(state)@, data@.take(136)),
        final(state)@.len() == 200,
{
    permute_after_xor(state, data, 136);
}

/// Absorb one 1152-bit block: XOR its 144 bytes into the state and permute.
pub fn absorb_1152_bits(state: &mut Vec<u8>, data: &[u8])
    requires
        old(state).len() == 200,
        data.len() >= 144,
    ensures
        final(state)@ == spec_absorb_block(old(state)@, data@.take(144)),
        final(state)@.len() == 200,
{
    permute_after_xor(state, data, 144);
}

/// Absorb one 1344-bit block: XOR its 168 bytes into the state and permute.
pub fn absorb_1344_bits(state: &mut Vec<u8>, data: &[u8])
    requires
        old(state).len() == 200,
        data.len() >= 168,
    ensures
        final(state)@ == spec_absorb_block(old(state)@, data@.take(168)),
        final(state)@.len() == 200,
{
    permute_after_xor(state, data, 168);
}

/// Absorb one block of `lane_count` lanes at any rate that is a multiple of 64.
pub fn absorb(state: &mut Vec<u8>, data: &[u8], lane_count: usize)
    requires
        old(state).len() == 200,
        lane_count <= 25,
        data.len() >= lane_count * 8,
    ensures
        final(state)@ == spec_absorb_block(old(state)@, data@.take(lane_count as int * 8)),
        final(state)@.len() == 200,
{
    permute_after_xor(state, data, lane_count * 8);
}

/// Copy the leading 128 bytes (1024 bits) of the state into `data`.
pub fn extract_1024_bits(state: &Vec<u8>, data: &mut Vec<u8>)
    requires
        state.len() == 200,
        old(data).len() >= 128,
    ensures
        final(data)@ == state@.take(128) + old(data)@.skip(128),
        final(data)@.len() == old(data)@.len(),
{
    extract(state, data, 16);
}

/// Copy the leading `lane_count * 8` bytes of the state into `data`; the state
/// is not changed.
#[verifier::loop_isolation(false)]
pub fn extract(state: &Vec<u8>, data: &mut Vec<u8>, lane_count: usize)
    requires
        state.len() == 200,
        lane_count <= 25,
        old(data).len() >= lane_count * 8,
    ensures
        final(data)@ == state@.take(lane_count as int * 8) + old(data)@.skip(lane_count as int * 8),
        final(data)@.len() == old(data)@.len(),
{
    let n = lane_count * 8;
    let ghost d0 = data@;
    let mut i: usize = 0;
    while i < n
        invariant
            i <= n,
            data@.len() == d0.len(),
            forall|j: int| 0 <= j < i ==> data@[j] == state@[j],
            forall|j: int| i <= j < d0.len() ==> data@[j] == d0[j],
        decreases n - i,
    {
        data.set(i, state[i]);
        i += 1;
    }
    proof {
        assert(data@ =~= state@.take(n as int) + d0.skip(n as int));
    }
}

} // verus!
