//! The `reg` property: a list of (address, size) pairs, each written as
//! big-endian 32-bit cells, `#address-cells` cells for the address followed by
//! `#size-cells` cells for the size.

use crate::common::{be_u32_value, read_be_u32};
use core::ops::Range;
use vstd::arithmetic::div_mod::{lemma_add_mod_noop, lemma_mul_mod_noop_left, lemma_small_mod};
use vstd::prelude::*;
use vstd::string::StringExecFns;

verus! {

/// Bytes in one cell.
pub const BLOCK_LEN: usize = 4;

/// How many cells make up an address and a size.
#[derive(Clone, Copy, Debug)]
pub struct RegConfig {
    pub address_cells: usize,
    pub size_cells: usize,
}

impl Default for RegConfig {
    /// The format that applies when a node does not give its own: two
    /// address cells and one size cell.
    fn default() -> (config: Self)
        ensures
            config.address_cells == 2,
            config.size_cells == 1,
    {
        Self { address_cells: 2, size_cells: 1 }
    }
}

/// One address range of a node.
#[derive(Debug)]
pub struct RegRegion(pub Range<usize>);

impl Clone for RegRegion {
    fn clone(&self) -> (copy: Self)
        ensures
            copy == *self,
    {
        RegRegion(self.0.start..self.0.end)
    }
}

/// The address space of a node: the raw value of its `reg` property and the
/// cell format it is written in.
pub struct Reg<'de> {
    data: &'de [u8],
    config: RegConfig,
}

/// Iterator over the address ranges of a `reg` value.
pub struct RegIter<'de> {
    data: &'de [u8],
    config: RegConfig,
}

/// Bytes in one (address, size) entry.
pub open spec fn block_len(config: RegConfig) -> int {
    BLOCK_LEN * (config.address_cells + config.size_cells)
}

/// Number of values a `usize` can hold.
pub open spec fn usize_modulus() -> nat {
    (usize::MAX + 1) as nat
}

/// Big-endian value of `count` cells of `bytes`, starting at cell `first`.
pub open spec fn cells_value(bytes: Seq<u8>, first: int, count: nat) -> nat
    decreases count,
{
    if count == 0 {
        0
    } else {
        cells_value(bytes, first, (count - 1) as nat) * 0x1_0000_0000 + be_u32_value(
            bytes,
            (first + count - 1) * 4,
        )
    }
}

/// The range that one entry `block` describes, as (start, end): the address
/// and the size each keep their low `usize` bits.
pub open spec fn region_of(block: Seq<u8>, config: RegConfig) -> (int, int) {
    let base = cells_value(block, 0, config.address_cells as nat) % usize_modulus();
    let size = cells_value(block, config.address_cells as int, config.size_cells as nat)
        % usize_modulus();
    (base as int, (base + size) as int)
}

/// The ranges that the whole of `data` describes, one per complete entry.
pub open spec fn regions(data: Seq<u8>, config: RegConfig) -> Seq<(int, int)>
    decreases data.len(),
{
    let n = block_len(config);
    if n <= 0 || data.len() < n {
        Seq::empty()
    } else {
        seq![region_of(data.take(n), config)] + regions(data.skip(n), config)
    }
}

/// One step of decoding `data` can be taken without overflow: the entry
/// length fits a `usize`, cells are shifted in a 64-bit `usize`, and the end of
/// the next range fits.
pub open spec fn step_fits(data: Seq<u8>, config: RegConfig) -> bool {
    let n = block_len(config);
    &&& n <= usize::MAX
    &&& data.len() >= n ==> {
        &&& n > 0 ==> usize::BITS == 64
        &&& region_of(data.take(n), config).1 <= usize::MAX
    }
}

/// Every step of decoding `data` fits, and the steps come to an end.
pub open spec fn all_steps_fit(data: Seq<u8>, config: RegConfig) -> bool
    decreases data.len(),
{
    let n = block_len(config);
    &&& n > 0
    &&& step_fits(data, config)
    &&& data.len() >= n ==> all_steps_fit(data.skip(n), config)
}

/// Lower-case hexadecimal digit of `d`.
pub open spec fn hex_char(d: nat) -> char {
    if d < 10 {
        (('0' as nat) + d) as char
    } else {
        (('a' as nat) + d - 10) as char
    }
}

/// Lower-case hexadecimal digits of `n`, without leading zeros.
pub open spec fn hex_digits(n: nat) -> Seq<char>
    decreases n,
{
    if n < 16 {
        seq![hex_char(n)]
    } else {
        hex_digits(n / 16).push(hex_char(n % 16))
    }
}

/// Value of a lower-case hexadecimal digit.
pub open spec fn hex_digit_value(c: char) -> int {
    if '0' <= c && c <= '9' {
        c as int - '0' as int
    } else if 'a' <= c && c <= 'f' {
        c as int - 'a' as int + 10
    } else {
        -1
    }
}

/// Value of a string of hexadecimal digits, most significant first.
pub open spec fn hex_value(s: Seq<char>) -> int
    decreases s.len(),
{
    if s.len() == 0 {
        0
    } else {
        hex_value(s.drop_last()) * 16 + hex_digit_value(s.last())
    }
}

/// The hexadecimal text of `n` reads back as `n`: every character is a
/// lower-case hexadecimal digit, their base-16 value is `n`, and there is no
/// leading zero (zero itself is the single digit `0`).
pub proof fn law_hex_digits_read_back(n: nat)
    ensures
        hex_value(hex_digits(n)) == n,
        hex_digits(n).len() >= 1,
        forall|i: int| 0 <= i < hex_digits(n).len() ==> 0 <= #[trigger] hex_digit_value(hex_digits(n)[i]) < 16,
        n > 0 ==> hex_digits(n)[0] != '0',
        n == 0 ==> hex_digits(n) == seq!['0'],
    decreases n,
{
    if n < 16 {
        assert(seq![hex_char(n)].drop_last() =~= Seq::<char>::empty());
        assert(hex_digit_value(hex_char(n)) == n);
        assert(hex_value(seq![hex_char(n)]) == hex_value(Seq::<char>::empty()) * 16
            + hex_digit_value(hex_char(n)));
    } else {
        let q = n / 16;
        let r = n % 16;
        law_hex_digits_read_back(q);
        let h = hex_digits(q);
        assert(hex_digits(n) == h.push(hex_char(r)));
        assert(h.push(hex_char(r)).drop_last() =~= h);
        assert(hex_digit_value(hex_char(r)) == r);
        assert(hex_value(hex_digits(n)) == hex_value(h) * 16 + hex_digit_value(hex_char(r)));
        assert(q * 16 + r == n);
        assert(hex_digits(n)[0] == h[0]);
        assert forall|i: int| 0 <= i < hex_digits(n).len() implies 0 <= #[trigger] hex_digit_value(
            hex_digits(n)[i],
        ) < 16 by {
            if i < h.len() {
                assert(hex_digits(n)[i] == h[i]);
            }
        }
    }
}

/// A range as `0x<start>..0x<end>`.
pub open spec fn range_text(r: (int, int)) -> Seq<char> {
    seq!['0', 'x'] + hex_digits(r.0 as nat) + seq!['.', '.', '0', 'x'] + hex_digits(r.1 as nat)
}

/// The ranges, separated by `, `.
pub open spec fn ranges_text(rs: Seq<(int, int)>) -> Seq<char>
    decreases rs.len(),
{
    if rs.len() == 0 {
        Seq::empty()
    } else if rs.len() == 1 {
        range_text(rs[0])
    } else {
        ranges_text(rs.drop_last()) + seq![',', ' '] + range_text(rs.last())
    }
}

/// The debug text of a `reg` value: its ranges in square brackets.
pub open spec fn reg_text(data: Seq<u8>, config: RegConfig) -> Seq<char> {
    seq!['['] + ranges_text(regions(data, config)) + seq![']']
}

/// Decoding gives one range per complete entry, and range `i` is decoded
/// from the bytes of entry `i`; a trailing partial entry gives nothing.
pub proof fn law_regions_by_entry(data: Seq<u8>, config: RegConfig)
    requires
        block_len(config) > 0,
    ensures
        regions(data, config).len() == data.len() as int / block_len(config),
        forall|i: int|
            0 <= i < regions(data, config).len() ==> #[trigger] regions(data, config)[i]
                == region_of(
                data.subrange(i * block_len(config), i * block_len(config) + block_len(config)),
                config,
            ),
    decreases data.len(),
{
    let n = block_len(config);
    if data.len() < n {
        assert(data.len() as int / n == 0) by (nonlinear_arith)
            requires
                0 <= data.len() < n,
        ;
    } else {
        let rest = data.skip(n);
        law_regions_by_entry(rest, config);
        let len = data.len() as int;
        assert((len - n) / n + 1 == len / n) by (nonlinear_arith)
            requires
                n > 0,
                len >= n,
        ;
        let head = region_of(data.take(n), config);
        assert(regions(data, config) == seq![head] + regions(rest, config));
        assert forall|i: int| 0 <= i < regions(data, config).len() implies #[trigger] regions(
            data,
            config,
        )[i] == region_of(data.subrange(i * n, i * n + n), config) by {
            if i == 0 {
                assert(i * n == 0) by (nonlinear_arith)
                    requires
                        i == 0,
                ;
                assert(data.subrange(0, n) =~= data.take(n));
                assert(regions(data, config)[i] == head);
            } else {
                let j = i - 1;
                assert(regions(data, config)[i] == regions(rest, config)[j]);
                assert(j * n + n == i * n) by (nonlinear_arith)
                    requires
                        j == i - 1,
                ;
                assert(i * n + n <= len) by (nonlinear_arith)
                    requires
                        0 <= i < len / n,
                        n > 0,
                ;
                assert(0 <= j * n) by (nonlinear_arith)
                    requires
                        0 <= j,
                        n > 0,
                ;
                assert(rest.subrange(j * n, j * n + n) =~= data.subrange(i * n, i * n + n));
            }
        }
    }
}

/// Shifting a cell into a 64-bit value keeps the low 64 bits of
/// `v * 2^32 + c`.
proof fn lemma_shift_in_cell(v: usize, c: u32)
    by (bit_vector)
    requires
        usize::BITS == 64,
    ensures
        ((v << 32usize) | (c as usize)) as nat == (v as nat * 0x1_0000_0000 + c as nat)
            % 0x1_0000_0000_0000_0000,
{
}

/// Shifting a cell into the truncated value of the cells before it gives the
/// truncated value of all of them.
proof fn lemma_cells_step(bytes: Seq<u8>, first: int, count: nat, v: usize, c: u32)
    requires
        usize::BITS == 64,
        count > 0,
        v == cells_value(bytes, first, (count - 1) as nat) % usize_modulus(),
        c == be_u32_value(bytes, (first + count - 1) * 4),
    ensures
        ((v << 32usize) | (c as usize)) as int == cells_value(bytes, first, count)
            % usize_modulus(),
{
    let m = usize_modulus() as int;
    assert(m == 0x1_0000_0000_0000_0000);
    let x = cells_value(bytes, first, (count - 1) as nat) as int;
    lemma_shift_in_cell(v, c);
    lemma_mul_mod_noop_left(x, 0x1_0000_0000, m);
    lemma_add_mod_noop(x * 0x1_0000_0000, c as int, m);
    lemma_add_mod_noop((x % m) * 0x1_0000_0000, c as int, m);
    assert(c as int % m == c as int);
    assert(((x % m) * 0x1_0000_0000) % m == (x * 0x1_0000_0000) % m);
}

/// Decodes `count` cells of `block`, starting at cell `first`, keeping the low
/// `usize` bits.
fn read_cells(block: &[u8], first: usize, count: usize) -> (v: usize)
    requires
        (first + count) * 4 <= block@.len(),
        count > 0 ==> usize::BITS == 64,
    ensures
        v == cells_value(block@, first as int, count as nat) % usize_modulus(),
{
    let mut v: usize = 0;
    let mut k: usize = 0;
    proof {
        lemma_small_mod(0, usize_modulus());
    }
    while k < count
        invariant
            k <= count,
            (first + count) * 4 <= block@.len(),
            block@.len() == block.len(),
            count > 0 ==> usize::BITS == 64,
            v == cells_value(block@, first as int, k as nat) % usize_modulus(),
        decreases count - k,
    {
        let c = read_be_u32(block, (first + k) * 4);
        proof {
            lemma_cells_step(block@, first as int, (k + 1) as nat, v, c);
        }
        v = (v << 32) | (c as usize);
        k = k + 1;
    }
    v
}

impl<'de> RegIter<'de> {
    /// Bytes not decoded yet.
    pub closed spec fn remaining(&self) -> Seq<u8> {
        self.data@
    }

    /// The cell format.
    pub closed spec fn spec_config(&self) -> RegConfig {
        self.config
    }

    /// Decodes the next entry and returns its range, or `None` when less than
    /// a whole entry is left.
    pub fn next(&mut self) -> (region: Option<RegRegion>)
        requires
            step_fits(old(self).remaining(), old(self).spec_config()),
        ensures
            final(self).spec_config() == old(self).spec_config(),
            old(self).remaining().len() >= block_len(old(self).spec_config()) ==> {
                let n = block_len(old(self).spec_config());
                let r = region_of(old(self).remaining().take(n), old(self).spec_config());
                &&& region matches Some(reg) && reg.0.start == r.0 && reg.0.end == r.1
                &&& final(self).remaining() == old(self).remaining().skip(n)
            },
            old(self).remaining().len() < block_len(old(self).spec_config()) ==> {
                &&& region is None
                &&& final(self).remaining() == old(self).remaining()
            },
    {
        let len = BLOCK_LEN * (self.config.address_cells + self.config.size_cells);
        if self.data.len() >= len {
            let (current_block, data) = self.data.split_at(len);
            self.data = data;
            let base = read_cells(current_block, 0, self.config.address_cells);
            let size = read_cells(current_block, self.config.address_cells, self.config.size_cells);
            Some(RegRegion(base..base + size))
        } else {
            None
        }
    }
}

/// Appends the hexadecimal digit `d`.
fn append_hex_digit(out: &mut String, d: usize)
    requires
        d < 16,
    ensures
        final(out)@ == old(out)@.push(hex_char(d as nat)),
{
    let s = match d {
        0 => {
            proof {
                reveal_strlit("0");
            }
            "0"
        },
        1 => {
            proof {
                reveal_strlit("1");
            }
            "1"
        },
        2 => {
            proof {
                reveal_strlit("2");
            }
            "2"
        },
        3 => {
            proof {
                reveal_strlit("3");
            }
            "3"
        },
        4 => {
            proof {
                reveal_strlit("4");
            }
            "4"
        },
        5 => {
            proof {
                reveal_strlit("5");
            }
            "5"
        },
        6 => {
            proof {
                reveal_strlit("6");
            }
            "6"
        },
        7 => {
            proof {
                reveal_strlit("7");
            }
            "7"
        },
        8 => {
            proof {
                reveal_strlit("8");
            }
            "8"
        },
        9 => {
            proof {
                reveal_strlit("9");
            }
            "9"
        },
        10 => {
            proof {
                reveal_strlit("a");
            }
            "a"
        },
        11 => {
            proof {
                reveal_strlit("b");
            }
            "b"
        },
        12 => {
            proof {
                reveal_strlit("c");
            }
            "c"
        },
        13 => {
            proof {
                reveal_strlit("d");
            }
            "d"
        },
        14 => {
            proof {
                reveal_strlit("e");
            }
            "e"
        },
        _ => {
            proof {
                reveal_strlit("f");
            }
            "f"
        },
    };
    out.append(s);
    assert(s@ =~= seq![hex_char(d as nat)]);
}

/// Appends the lower-case hexadecimal digits of `n`.
fn append_hex(out: &mut String, n: usize)
    ensures
        final(out)@ == old(out)@ + hex_digits(n as nat),
    decreases n,
{
    if n >= 16 {
        append_hex(out, n / 16);
    }
    append_hex_digit(out, n % 16);
    proof {
        if n >= 16 {
            assert(hex_digits(n as nat) == hex_digits((n / 16) as nat).push(hex_char((n % 16) as nat)));
        } else {
            assert(hex_digits(n as nat) == seq![hex_char(n as nat)]);
        }
    }
    assert(final(out)@ =~= old(out)@ + hex_digits(n as nat));
}

/// Appends `0x<start>..0x<end>`.
fn append_range(out: &mut String, start: usize, end: usize)
    ensures
        final(out)@ == old(out)@ + range_text((start as int, end as int)),
{
    proof {
        reveal_strlit("0x");
        reveal_strlit("..0x");
    }
    out.append("0x");
    append_hex(out, start);
    out.append("..0x");
    append_hex(out, end);
    assert(final(out)@ =~= old(out)@ + range_text((start as int, end as int)));
}

impl<'de> Reg<'de> {
    /// The raw value of the property.
    pub closed spec fn bytes(&self) -> Seq<u8> {
        self.data@
    }

    /// The cell format.
    pub closed spec fn spec_config(&self) -> RegConfig {
        self.config
    }

    /// The address space given by the raw `reg` value `data`, written in the
    /// cell format `config` of the node's parent.
    pub fn new(data: &'de [u8], config: RegConfig) -> (reg: Reg<'de>)
        ensures
            reg.bytes() == data@,
            reg.spec_config() == config,
    {
        Reg { data, config }
    }

    /// The raw value of the property.
    pub fn as_bytes(&self) -> (data: &'de [u8])
        ensures
            data@ == self.bytes(),
    {
        self.data
    }

    /// Iterator over the ranges, from the first entry on.
    pub fn iter(&self) -> (iter: RegIter<'_>)
        ensures
            iter.remaining() == self.bytes(),
            iter.spec_config() == self.spec_config(),
    {
        RegIter { data: self.data, config: self.config }
    }

    /// Whether the whole value decodes without overflow: entries have a
    /// non-zero length that fits a `usize`, cells shift into a 64-bit `usize`,
    /// and the end of every range fits a `usize`.
    pub fn is_decodable(&self) -> (ok: bool)
        ensures
            ok == all_steps_fit(self.bytes(), self.spec_config()),
    {
        let config = self.config;
        let cells = match config.address_cells.checked_add(config.size_cells) {
            Some(c) => c,
            None => {
                proof {
                    assert(!step_fits(self.bytes(), config));
                }
                return false;
            },
        };
        let n = match cells.checked_mul(BLOCK_LEN) {
            Some(n) => n,
            None => {
                proof {
                    assert(!step_fits(self.bytes(), config));
                }
                return false;
            },
        };
        if n == 0 {
            return false;
        }
        let mut data = self.data;
        loop
            invariant
                config == self.spec_config(),
                n == block_len(config),
                n > 0,
                all_steps_fit(self.bytes(), config) == all_steps_fit(data@, config),
            decreases data@.len(),
        {
            if data.len() < n {
                return true;
            }
            if usize::BITS != 64 {
                return false;
            }
            let (block, rest) = data.split_at(n);
            let base = read_cells(block, 0, config.address_cells);
            let size = read_cells(block, config.address_cells, config.size_cells);
            assert(block@ == data@.take(n as int));
            if base.checked_add(size).is_none() {
                return false;
            }
            data = rest;
        }
    }

    /// The ranges, in hexadecimal, as `[0x<start>..0x<end>, ...]`.
    pub fn to_debug_string(&self) -> (text: String)
        requires
            all_steps_fit(self.bytes(), self.spec_config()),
        ensures
            text@ == reg_text(self.bytes(), self.spec_config()),
    {
        let ghost all = regions(self.bytes(), self.spec_config());
        let ghost mut done: Seq<(int, int)> = Seq::empty();
        let mut iter = self.iter();
        proof {
            reveal_strlit("[");
        }
        let mut out = String::from_str("[");
        let mut first = true;
        loop
            invariant
                all == regions(self.bytes(), self.spec_config()),
                iter.spec_config() == self.spec_config(),
                all_steps_fit(iter.remaining(), iter.spec_config()),
                all == done + regions(iter.remaining(), iter.spec_config()),
                first == (done.len() == 0),
                out@ == seq!['['] + ranges_text(done),
            ensures
                done == all,
                out@ == seq!['['] + ranges_text(done),
            decreases iter.remaining().len(),
        {
            let ghost before = iter.remaining();
            match iter.next() {
                Some(region) => {
                    let ghost r = region_of(
                        before.take(block_len(self.spec_config())),
                        self.spec_config(),
                    );
                    if !first {
                        proof {
                            reveal_strlit(", ");
                        }
                        out.append(", ");
                    }
                    append_range(&mut out, region.0.start, region.0.end);
                    proof {
                        let next_done = done.push(r);
                        assert(next_done.drop_last() =~= done);
                        assert(regions(before, self.spec_config()) =~= seq![r] + regions(
                            iter.remaining(),
                            self.spec_config(),
                        ));
                        assert(all =~= next_done + regions(iter.remaining(), self.spec_config()));
                        assert(out@ =~= seq!['['] + ranges_text(next_done));
                        done = next_done;
                    }
                    first = false;
                },
                None => {
                    proof {
                        assert(regions(before, self.spec_config()) =~= Seq::empty());
                        assert(all =~= done);
                    }
                    break ;
                },
            }
        }
        proof {
            reveal_strlit("]");
        }
        out.append("]");
        out
    }
}

} // verus!
