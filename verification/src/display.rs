//! Human-readable dumps of values and permutation state.
//!
//! A `ValDisplayer` renders byte buffers, bit strings and state words as
//! ASCII text into an owned output buffer, gated by a display level: a call
//! whose level is above the configured one renders nothing.  The caller
//! drains the buffer and writes it wherever it likes; nothing here touches
//! the hashing core.

use vstd::prelude::*;
use vstd::string::StringSliceAdditionalSpecFns;

verus! {

/// ASCII code of the uppercase hexadecimal digit for `n`.
pub open spec fn spec_hex_digit(n: u8) -> u8
    recommends
        n < 16,
{
    if n < 10 {
        (48 + n) as u8
    } else {
        (55 + n) as u8
    }
}

/// The first `n` bytes rendered as two hexadecimal digits and a space each.
pub open spec fn spec_hex_bytes(bytes: Seq<u8>, n: nat) -> Seq<u8>
    recommends
        n <= bytes.len(),
    decreases n,
{
    if n == 0 {
        Seq::<u8>::empty()
    } else {
        spec_hex_bytes(bytes, (n - 1) as nat) + seq![
            spec_hex_digit(bytes[n - 1] >> 4u8),
            spec_hex_digit(bytes[n - 1] & 0x0fu8),
            32u8,
        ]
    }
}

/// The character written for bit position `i` of `data`: bit `i % 8` of byte
/// `i / 8`, read from the most or the least significant end of the byte.
pub open spec fn spec_bit_char(data: Seq<u8>, i: int, msb_first: bool) -> u8
    recommends
        0 <= i,
        i / 8 < data.len(),
{
    let set = if msb_first {
        (data[i / 8] << ((i % 8) as u8)) & 0x80u8 != 0
    } else {
        (data[i / 8] >> ((i % 8) as u8)) & 1u8 != 0
    };
    if set {
        49u8
    } else {
        48u8
    }
}

/// The first `n` bit positions rendered as '0' or '1' and a space each.
pub open spec fn spec_bit_chars(data: Seq<u8>, n: nat, msb_first: bool) -> Seq<u8>
    recommends
        n <= data.len(),
    decreases n,
{
    if n == 0 {
        Seq::<u8>::empty()
    } else {
        spec_bit_chars(data, (n - 1) as nat, msb_first) + seq![
            spec_bit_char(data, n - 1, msb_first),
            32u8,
        ]
    }
}

/// Eight hexadecimal digits of a 32-bit word, most significant first.
pub open spec fn spec_hex32(x: u32) -> Seq<u8> {
    Seq::new(8, |i: int| spec_hex_digit(((x >> ((28 - 4 * i) as u32)) & 0xf) as u8))
}

/// Sixteen hexadecimal digits of a 64-bit word, most significant first.
pub open spec fn spec_hex64(x: u64) -> Seq<u8> {
    Seq::new(16, |i: int| spec_hex_digit(((x >> ((60 - 4 * i) as u64)) & 0xf) as u8))
}

/// The first `n` word pairs of the state as `HHHHHHHH:LLLLLLLL`, five pairs
/// per line.
pub open spec fn spec_state32(state: Seq<u32>, n: nat) -> Seq<u8>
    recommends
        2 * n <= state.len(),
    decreases n,
{
    if n == 0 {
        Seq::<u8>::empty()
    } else {
        spec_state32(state, (n - 1) as nat) + spec_hex32(state[2 * (n - 1)]) + seq![58u8]
            + spec_hex32(state[2 * (n - 1) + 1]) + seq![
            if (n - 1) % 5 == 4 {
                10u8
            } else {
                32u8
            },
        ]
    }
}

/// The first `n` lanes of the state, sixteen hexadecimal digits each, five
/// lanes per line.
pub open spec fn spec_state64(state: Seq<u64>, n: nat) -> Seq<u8>
    recommends
        n <= state.len(),
    decreases n,
{
    if n == 0 {
        Seq::<u8>::empty()
    } else {
        spec_state64(state, (n - 1) as nat) + spec_hex64(state[n - 1]) + seq![
            if (n - 1) % 5 == 4 {
                10u8
            } else {
                32u8
            },
        ]
    }
}

/// The decimal digits of `n`.
pub open spec fn spec_decimal(n: nat) -> Seq<u8>
    decreases n,
{
    if n < 10 {
        seq![(48 + n) as u8]
    } else {
        spec_decimal(n / 10).push((48 + n % 10) as u8)
    }
}

/// The line-feed byte.
pub open spec fn nl() -> Seq<u8> {
    seq![10u8]
}

/// The uppercase hexadecimal digit for `n`.
fn hex_digit(n: u8) -> (r: u8)
    requires
        n < 16,
    ensures
        r == spec_hex_digit(n),
{
    if n < 10 {
        48 + n
    } else {
        55 + n
    }
}

/// Append every byte of `s` to `out`.
fn push_bytes(out: &mut Vec<u8>, s: &[u8])
    ensures
        final(out)@ == old(out)@ + s@,
{
    let mut i: usize = 0;
    while i < s.len()
        invariant
            i <= s@.len(),
            out@ == old(out)@ + s@.take(i as int),
        decreases s@.len() - i,
    {
        out.push(s[i]);
        proof {
            assert(old(out)@ + s@.take(i as int) + seq![s@[i as int]] =~= old(out)@ + s@.take(
                i as int + 1,
            ));
        }
        i += 1;
    }
    proof {
        assert(s@.take(s@.len() as int) =~= s@);
    }
}

/// Append the decimal digits of `n` to `out`.
fn push_decimal(out: &mut Vec<u8>, n: u32)
    ensures
        final(out)@ == old(out)@ + spec_decimal(n as nat),
    decreases n,
{
    if n < 10 {
        out.push(48 + n as u8);
        proof {
            assert(old(out)@.push((48 + n) as u8) =~= old(out)@ + spec_decimal(n as nat));
        }
    } else {
        proof {
            assert(n as int / 10 < n as int) by (nonlinear_arith)
                requires
                    n >= 10,
            ;
        }
        push_decimal(out, n / 10);
        out.push(48 + (n % 10) as u8);
        proof {
            assert((old(out)@ + spec_decimal((n / 10) as nat)).push((48 + n as nat % 10) as u8)
                =~= old(out)@ + spec_decimal(n as nat));
        }
    }
}

/// A leveled renderer of values and state dumps into an owned text buffer.
pub struct ValDisplayer {
    out: Vec<u8>,
    display_level: i32,
}

impl View for ValDisplayer {
    type V = Seq<u8>;

    closed spec fn view(&self) -> Seq<u8> {
        self.out@
    }
}

impl ValDisplayer {
    /// The configured display level.
    pub closed spec fn spec_level(&self) -> int {
        self.display_level as int
    }

    /// A displayer with the given level and an empty output buffer.
    pub fn new(level: i32) -> (d: ValDisplayer)
        ensures
            d@ == Seq::<u8>::empty(),
            d.spec_level() == level,
    {
        let d = ValDisplayer { out: Vec::new(), display_level: level };
        d
    }

    /// Change the display level; pending output is kept.
    pub fn set_level(&mut self, level: i32)
        ensures
            final(self)@ == old(self)@,
            final(self).spec_level() == level,
    {
        self.display_level = level;
    }

    /// Hand the rendered text over and leave the buffer empty.
    pub fn take_output(&mut self) -> (r: Vec<u8>)
        ensures
            r@ == old(self)@,
            final(self)@ == Seq::<u8>::empty(),
            final(self).spec_level() == old(self).spec_level(),
    {
        let mut r: Vec<u8> = Vec::new();
        let mut i: usize = 0;
        while i < self.out.len()
            invariant
                i <= self.out@.len(),
                r@ == self.out@.take(i as int),
                self.out@ == old(self).out@,
                self.display_level == old(self).display_level,
            decreases self.out@.len() - i,
        {
            r.push(self.out[i]);
            proof {
                assert(self.out@.take(i as int).push(self.out@[i as int]) =~= self.out@.take(
                    i as int + 1,
                ));
            }
            i += 1;
        }
        proof {
            assert(self.out@.take(self.out@.len() as int) =~= self.out@);
        }
        self.out = Vec::new();
        r
    }

    /// Render `text`, then every byte of `bytes` in hexadecimal, if `level`
    /// is within the configured display level.
    pub fn display_bytes(&mut self, level: i32, text: &str, bytes: &[u8])
        ensures
            final(self).spec_level() == old(self).spec_level(),
            level > old(self).spec_level() ==> final(self)@ == old(self)@,
            level <= old(self).spec_level() ==> final(self)@ == old(self)@ + text.spec_bytes()
                + nl() + spec_hex_bytes(bytes@, bytes@.len()) + nl() + nl(),
    {
        if level <= self.display_level {
            push_bytes(&mut self.out, text.as_bytes());
            self.out.push(10);
            let ghost base = self.out@;
            let mut i: usize = 0;
            while i < bytes.len()
                invariant
                    i <= bytes@.len(),
                    self.out@ == base + spec_hex_bytes(bytes@, i as nat),
                    self.display_level == old(self).display_level,
                decreases bytes@.len() - i,
            {
                let b = bytes[i];
                proof {
                    assert(b >> 4u8 < 16 && b & 0x0fu8 < 16) by (bit_vector);
                }
                self.out.push(hex_digit(b >> 4));
                self.out.push(hex_digit(b & 0x0f));
                self.out.push(32);
                proof {
                    assert(self.out@ =~= base + spec_hex_bytes(bytes@, (i + 1) as nat));
                }
                i += 1;
            }
            self.out.push(10);
            self.out.push(10);
            proof {
                assert(self.out@ =~= old(self)@ + text.spec_bytes() + nl() + spec_hex_bytes(
                    bytes@,
                    bytes@.len(),
                ) + nl() + nl());
            }
        }
    }

    /// Render `text`, then one character per bit position of `data`, if
    /// `level` is within the configured display level.
    pub fn display_bits(&mut self, level: i32, text: &str, data: &[u8], msb_first: bool)
        ensures
            final(self).spec_level() == old(self).spec_level(),
            level > old(self).spec_level() ==> final(self)@ == old(self)@,
            level <= old(self).spec_level() ==> final(self)@ == old(self)@ + text.spec_bytes()
                + nl() + spec_bit_chars(data@, data@.len(), msb_first) + nl() + nl(),
    {
        if level <= self.display_level {
            push_bytes(&mut self.out, text.as_bytes());
            self.out.push(10);
            let ghost base = self.out@;
            let mut i: usize = 0;
            while i < data.len()
                invariant
                    i <= data@.len(),
                    self.out@ == base + spec_bit_chars(data@, i as nat, msb_first),
                    self.display_level == old(self).display_level,
                decreases data@.len() - i,
            {
                proof {
                    vstd::arithmetic::div_mod::lemma_fundamental_div_mod(i as int, 8);
                    vstd::arithmetic::div_mod::lemma_mod_division_less_than_divisor(i as int, 8);
                    assert(i as int / 8 <= i as int);
                }
                let i_byte = i / 8;
                let i_bit = (i % 8) as u8;
                let set = if msb_first {
                    ((data[i_byte] << i_bit) & 0x80) != 0
                } else {
                    ((data[i_byte] >> i_bit) & 0x01) != 0
                };
                self.out.push(if set {
                    49
                } else {
                    48
                });
                self.out.push(32);
                proof {
                    assert(self.out@ =~= base + spec_bit_chars(data@, (i + 1) as nat, msb_first));
                }
                i += 1;
            }
            self.out.push(10);
            self.out.push(10);
            proof {
                assert(self.out@ =~= old(self)@ + text.spec_bytes() + nl() + spec_bit_chars(
                    data@,
                    data@.len(),
                    msb_first,
                ) + nl() + nl());
            }
        }
    }

    /// Render the 200-byte state as hexadecimal bytes.
    pub fn display_state_as_bytes(&mut self, level: i32, text: &str, state: &[u8])
        ensures
            final(self).spec_level() == old(self).spec_level(),
            level > old(self).spec_level() ==> final(self)@ == old(self)@,
            level <= old(self).spec_level() ==> final(self)@ == old(self)@ + text.spec_bytes()
                + nl() + spec_hex_bytes(state@, state@.len()) + nl() + nl(),
    {
        self.display_bytes(level, text, state);
    }

    /// Render the state as 25 pairs of 32-bit words, five pairs per line.
    pub fn display_state_as_32bit(&mut self, level: i32, text: &str, state: &[u32])
        requires
            state@.len() >= 50,
        ensures
            final(self).spec_level() == old(self).spec_level(),
            level > old(self).spec_level() ==> final(self)@ == old(self)@,
            level <= old(self).spec_level() ==> final(self)@ == old(self)@ + text.spec_bytes()
                + nl() + spec_state32(state@, 25),
    {
        if level <= self.display_level {
            push_bytes(&mut self.out, text.as_bytes());
            self.out.push(10);
            let ghost base = self.out@;
            let mut i: usize = 0;
            while i < 25
                invariant
                    i <= 25,
                    state@.len() >= 50,
                    self.out@ == base + spec_state32(state@, i as nat),
                    self.display_level == old(self).display_level,
                decreases 25 - i,
            {
                self.push_hex32(state[2 * i]);
                self.out.push(58);
                self.push_hex32(state[2 * i + 1]);
                self.out.push(if i % 5 == 4 {
                    10
                } else {
                    32
                });
                proof {
                    assert(self.out@ =~= base + spec_state32(state@, (i + 1) as nat));
                }
                i += 1;
            }
            proof {
                assert(self.out@ =~= old(self)@ + text.spec_bytes() + nl() + spec_state32(
                    state@,
                    25,
                ));
            }
        }
    }

    /// Render the state as 25 64-bit lanes, five lanes per line.
    pub fn display_state_as_64bit(&mut self, level: i32, text: &str, state: &[u64])
        requires
            state@.len() >= 25,
        ensures
            final(self).spec_level() == old(self).spec_level(),
            level > old(self).spec_level() ==> final(self)@ == old(self)@,
            level <= old(self).spec_level() ==> final(self)@ == old(self)@ + text.spec_bytes()
                + nl() + spec_state64(state@, 25),
    {
        if level <= self.display_level {
            push_bytes(&mut self.out, text.as_bytes());
            self.out.push(10);
            let ghost base = self.out@;
            let mut i: usize = 0;
            while i < 25
                invariant
                    i <= 25,
                    state@.len() >= 25,
                    self.out@ == base + spec_state64(state@, i as nat),
                    self.display_level == old(self).display_level,
                decreases 25 - i,
            {
                self.push_hex64(state[i]);
                self.out.push(if i % 5 == 4 {
                    10
                } else {
                    32
                });
                proof {
                    assert(self.out@ =~= base + spec_state64(state@, (i + 1) as nat));
                }
                i += 1;
            }
            proof {
                assert(self.out@ =~= old(self)@ + text.spec_bytes() + nl() + spec_state64(
                    state@,
                    25,
                ));
            }
        }
    }

    /// Render a round banner with the round number in decimal.
    pub fn display_round_number(&mut self, level: i32, rn: u32)
        ensures
            final(self).spec_level() == old(self).spec_level(),
            level > old(self).spec_level() ==> final(self)@ == old(self)@,
            level <= old(self).spec_level() ==> final(self)@ == old(self)@ + nl()
                + "--- Round ".spec_bytes() + spec_decimal(rn as nat) + " ---".spec_bytes() + nl()
                + nl(),
    {
        if level <= self.display_level {
            self.out.push(10);
            push_bytes(&mut self.out, "--- Round ".as_bytes());
            push_decimal(&mut self.out, rn);
            push_bytes(&mut self.out, " ---".as_bytes());
            self.out.push(10);
            self.out.push(10);
            proof {
                assert(self.out@ =~= old(self)@ + nl() + "--- Round ".spec_bytes() + spec_decimal(
                    rn as nat,
                ) + " ---".spec_bytes() + nl() + nl());
            }
        }
    }

    /// Render a line of text followed by a blank line.
    pub fn display_test(&mut self, level: i32, text: &str)
        ensures
            final(self).spec_level() == old(self).spec_level(),
            level > old(self).spec_level() ==> final(self)@ == old(self)@,
            level <= old(self).spec_level() ==> final(self)@ == old(self)@ + text.spec_bytes()
                + nl() + nl(),
    {
        if level <= self.display_level {
            push_bytes(&mut self.out, text.as_bytes());
            self.out.push(10);
            self.out.push(10);
            proof {
                assert(self.out@ =~= old(self)@ + text.spec_bytes() + nl() + nl());
            }
        }
    }

    /// Append the eight hexadecimal digits of a 32-bit word.
    fn push_hex32(&mut self, x: u32)
        ensures
            final(self)@ == old(self)@ + spec_hex32(x),
            final(self).spec_level() == old(self).spec_level(),
    {
        let mut j: usize = 0;
        while j < 8
            invariant
                j <= 8,
                self.out@ == old(self).out@ + spec_hex32(x).take(j as int),
                self.display_level == old(self).display_level,
            decreases 8 - j,
        {
            let sh = (28 - 4 * j) as u32;
            let d = ((x >> sh) & 0xf) as u8;
            proof {
                assert((x >> sh) & 0xf < 16) by (bit_vector);
            }
            self.out.push(hex_digit(d));
            proof {
                assert(self.out@ =~= old(self).out@ + spec_hex32(x).take(j as int + 1));
            }
            j += 1;
        }
        proof {
            assert(spec_hex32(x).take(8) =~= spec_hex32(x));
        }
    }

    /// Append the sixteen hexadecimal digits of a 64-bit word.
    fn push_hex64(&mut self, x: u64)
        ensures
            final(self)@ == old(self)@ + spec_hex64(x),
            final(self).spec_level() == old(self).spec_level(),
    {
        let mut j: usize = 0;
        while j < 16
            invariant
                j <= 16,
                self.out@ == old(self).out@ + spec_hex64(x).take(j as int),
                self.display_level == old(self).display_level,
            decreases 16 - j,
        {
            let sh = (60 - 4 * j) as u64;
            let d = ((x >> sh) & 0xf) as u8;
            proof {
                assert((x >> sh) & 0xf < 16) by (bit_vector);
            }
            self.out.push(hex_digit(d));
            proof {
                assert(self.out@ =~= old(self).out@ + spec_hex64(x).take(j as int + 1));
            }
            j += 1;
        }
        proof {
            assert(spec_hex64(x).take(16) =~= spec_hex64(x));
        }
    }
}

} // verus!
