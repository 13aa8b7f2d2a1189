use vstd::prelude::*;
use crate::bankdef::Bankdef;
use crate::resolver::two_pow;

verus! {

/// Where a bank lands in the output image: its byte offset, if it is written
/// at all, and how many bytes it emits.
#[derive(Debug, Copy, Clone, PartialEq, Eq, Structural)]
pub struct BankExtent {
    pub output_offset: Option<usize>,
    pub len: usize,
}

/// Two banks overlap when both are written to the output and their byte
/// ranges `[offset, offset + len)` share a byte.
pub open spec fn spec_overlap(a: BankExtent, b: BankExtent) -> bool {
    match (a.output_offset, b.output_offset) {
        (Some(x), Some(y)) => a.len > 0 && b.len > 0 && x < y + b.len && y < x + a.len,
        _ => false,
    }
}

/// Overlap does not depend on which bank is named first.
pub proof fn lemma_overlap_symmetric(a: BankExtent, b: BankExtent)
    ensures
        spec_overlap(a, b) == spec_overlap(b, a),
{
}

/// Banks whose byte ranges are disjoint never overlap.
pub proof fn lemma_disjoint_no_overlap(a: BankExtent, b: BankExtent, x: usize, y: usize)
    requires
        a.output_offset == Some(x),
        b.output_offset == Some(y),
        x + a.len <= y || y + b.len <= x,
    ensures
        !spec_overlap(a, b),
        !spec_overlap(b, a),
{
}

pub fn overlap(a: &BankExtent, b: &BankExtent) -> (r: bool)
    ensures
        r == spec_overlap(*a, *b),
{
    match (a.output_offset, b.output_offset) {
        (Some(x), Some(y)) => {
            a.len > 0 && b.len > 0 && (x as u128) < (y as u128) + (b.len as u128) && (y as u128) < (
            x as u128) + (a.len as u128)
        },
        _ => false,
    }
}

/// Every pair of banks `(i, j)`, `i < j`, whose output ranges overlap, in
/// order of `i` and then `j`; the check passes when there is none.
pub fn check_bank_overlap(banks: &[BankExtent]) -> (r: Vec<(usize, usize)>)
    ensures
        forall|k: int|
            0 <= k < r@.len() ==> {
                let (i, j) = #[trigger] r@[k];
                &&& i < j < banks@.len()
                &&& spec_overlap(banks@[i as int], banks@[j as int])
            },
        forall|i: int, j: int|
            0 <= i < j < banks@.len() && #[trigger] spec_overlap(banks@[i], banks@[j]) ==> exists|
                k: int,
            | 0 <= k < r@.len() && #[trigger] r@[k] == (i as usize, j as usize),
        forall|k1: int, k2: int| 0 <= k1 < k2 < r@.len() ==> #[trigger] r@[k1] != #[trigger] r@[k2],
        forall|k1: int, k2: int| 0 <= k1 < k2 < r@.len() ==> (#[trigger] r@[k1]).0 < (#[trigger] r@[k2]).0
            || (r@[k1].0 == r@[k2].0 && r@[k1].1 < r@[k2].1),
{
    let mut out: Vec<(usize, usize)> = Vec::new();
    let mut i: usize = 0;
    while i < banks.len()
        invariant
            i <= banks@.len(),
            forall|k: int|
                0 <= k < out@.len() ==> {
                    let (a, b) = #[trigger] out@[k];
                    &&& a < b < banks@.len()
                    &&& a < i
                    &&& spec_overlap(banks@[a as int], banks@[b as int])
                },
            forall|a: int, b: int|
                0 <= a < b < banks@.len() && a < i && #[trigger] spec_overlap(banks@[a], banks@[b])
                    ==> exists|k: int| 0 <= k < out@.len() && #[trigger] out@[k] == (a as usize, b as usize),
            forall|k1: int, k2: int| 0 <= k1 < k2 < out@.len() ==> (#[trigger] out@[k1]).0 < (#[trigger] out@[k2]).0
                || (out@[k1].0 == out@[k2].0 && out@[k1].1 < out@[k2].1),
        decreases banks@.len() - i,
    {
        let mut j: usize = i + 1;
        let ghost start = out@.len();
        while j < banks.len()
            invariant
                i < banks@.len(),
                i + 1 <= j <= banks@.len(),
                start <= out@.len(),
                forall|k: int|
                    0 <= k < out@.len() ==> {
                        let (a, b) = #[trigger] out@[k];
                        &&& a < b < banks@.len()
                        &&& a <= i
                        &&& spec_overlap(banks@[a as int], banks@[b as int])
                    },
                forall|k: int| start <= k < out@.len() ==> (#[trigger] out@[k]).0 == i && out@[k].1 < j,
                forall|k: int| 0 <= k < start ==> (#[trigger] out@[k]).0 < i,
                forall|a: int, b: int|
                    0 <= a < b < banks@.len() && (a < i || (a == i && b < j)) && #[trigger] spec_overlap(
                        banks@[a],
                        banks@[b],
                    ) ==> exists|k: int| 0 <= k < out@.len() && #[trigger] out@[k] == (a as usize, b as usize),
                forall|k1: int, k2: int| 0 <= k1 < k2 < out@.len() ==> (#[trigger] out@[k1]).0 < (#[trigger] out@[k2]).0
                    || (out@[k1].0 == out@[k2].0 && out@[k1].1 < out@[k2].1),
            decreases banks@.len() - j,
        {
            if overlap(&banks[i], &banks[j]) {
                let ghost old_out = out@;
                out.push((i, j));
                proof {
                    assert forall|a: int, b: int|
                        0 <= a < b < banks@.len() && (a < i || (a == i && b < j + 1)) && #[trigger] spec_overlap(
                            banks@[a],
                            banks@[b],
                        ) implies exists|k: int| 0 <= k < out@.len() && #[trigger] out@[k] == (a as usize, b as usize) by {
                        if a == i && b == j {
                            assert(out@[old_out.len() as int] == (a as usize, b as usize));
                        } else {
                            let k = choose|k: int| 0 <= k < old_out.len() && #[trigger] old_out[k] == (a as usize, b as usize);
                            assert(out@[k] == old_out[k]);
                        }
                    }
                }
            }
            j += 1;
        }
        i += 1;
    }
    out
}

/// The number of address units that an item of `bits` bits takes in a bank
/// of `unit`-bit address units.
pub open spec fn spec_units(bits: nat, unit: nat) -> nat
    recommends
        unit > 0,
{
    ((bits + unit - 1) / (unit as int)) as nat
}

/// The number of address units that `bits` bits take, rounded up.
pub fn units_of(bits: usize, unit: usize) -> (r: u128)
    requires
        unit > 0,
    ensures
        r == spec_units(bits as nat, unit as nat),
        r <= bits,
{
    proof {
        lemma_units(bits as nat, unit as nat);
        assert(bits / unit + (if bits % unit == 0 { 0nat } else { 1nat }) <= bits) by (nonlinear_arith)
            requires unit > 0, bits == unit * (bits / unit) + bits % unit, bits % unit < unit;
    }
    bits as u128 / unit as u128 + if bits as u128 % unit as u128 == 0 { 0 } else { 1 }
}

/// The address of each item of a bank that starts at `start`, items placed in
/// order, each right after the one before; `None` where an address leaves
/// the `i128` range.
pub fn layout(start: i128, unit: usize, sizes_bits: &[usize]) -> (r: Option<Vec<i128>>)
    requires
        unit > 0,
    ensures
        r matches Some(v) ==> {
            &&& v@.len() == sizes_bits@.len() + 1
            &&& v@[0] == start
            &&& forall|k: int|
                0 <= k < sizes_bits@.len() ==> #[trigger] v@[k + 1] == v@[k] + spec_units(
                    sizes_bits@[k] as nat,
                    unit as nat,
                )
        },
        r is None ==> exists|k: int|
            0 <= k <= sizes_bits@.len() && !(i128::MIN <= start + #[trigger] sum_units(sizes_bits@, unit as nat, k)
                <= i128::MAX),
{
    let mut out: Vec<i128> = Vec::new();
    out.push(start);
    let mut addr: i128 = start;
    let mut k: usize = 0;
    while k < sizes_bits.len()
        invariant
            k <= sizes_bits@.len(),
            out@.len() == k + 1,
            out@[0] == start,
            addr == out@[k as int],
            addr == start + sum_units(sizes_bits@, unit as nat, k as int),
            unit > 0,
            forall|m: int|
                0 <= m < k ==> #[trigger] out@[m + 1] == out@[m] + spec_units(
                    sizes_bits@[m] as nat,
                    unit as nat,
                ),
        decreases sizes_bits@.len() - k,
    {
        let bits = sizes_bits[k];
        let units = units_of(bits, unit);
        match addr.checked_add(units as i128) {
            Some(a) => {
                addr = a;
                out.push(a);
            },
            None => {
                proof {
                    assert(sum_units(sizes_bits@, unit as nat, k + 1) == sum_units(sizes_bits@, unit as nat, k as int) + units);
                }
                return None;
            },
        }
        k += 1;
    }
    Some(out)
}

pub open spec fn sum_units(sizes: Seq<usize>, unit: nat, k: int) -> int
    decreases k,
{
    if k <= 0 || k > sizes.len() {
        0
    } else {
        sum_units(sizes, unit, k - 1) + spec_units(sizes[k - 1] as nat, unit)
    }
}

proof fn lemma_units(bits: nat, unit: nat)
    requires
        unit > 0,
    ensures
        spec_units(bits, unit) == bits / unit + if bits % unit == 0 { 0nat } else { 1nat },
        bits == unit * (bits / unit) + bits % unit,
        bits % unit < unit,
{
    assert(bits == unit * (bits / unit) + bits % unit) by (nonlinear_arith)
        requires unit > 0;
    if bits % unit == 0 {
        assert((bits + unit - 1) / (unit as int) == bits / unit) by (nonlinear_arith)
            requires unit > 0, bits == unit * (bits / unit);
    } else {
        assert((bits + unit - 1) / (unit as int) == bits / unit + 1) by (nonlinear_arith)
            requires unit > 0, bits == unit * (bits / unit) + bits % unit, 0 < bits % unit < unit;
    }
}

/// Within a bank, each item ends where the next begins, and addresses do not
/// decrease in declaration order.
pub proof fn lemma_addresses_monotonic(addrs: Seq<i128>, sizes_bits: Seq<usize>, unit: nat, a: int, b: int)
    requires
        unit > 0,
        addrs.len() == sizes_bits.len() + 1,
        forall|k: int|
            0 <= k < sizes_bits.len() ==> #[trigger] addrs[k + 1] == addrs[k] + spec_units(
                sizes_bits[k] as nat,
                unit,
            ),
        0 <= a <= b < addrs.len(),
    ensures
        addrs[a] <= addrs[b],
        b == a + 1 ==> addrs[a] + spec_units(sizes_bits[a] as nat, unit) == addrs[b],
    decreases b - a,
{
    if a < b {
        lemma_addresses_monotonic(addrs, sizes_bits, unit, a, b - 1);
        let k = b - 1;
        assert(addrs[k + 1] == addrs[k] + spec_units(sizes_bits[k] as nat, unit));
    }
}

/// The bytes a bank takes in the output image: what its items emit, or its
/// whole declared size when gaps are filled and that is more.
pub open spec fn spec_extent_len(def: Bankdef, emitted_bits: nat) -> nat {
    let used = spec_units(emitted_bits, 8);
    match def.size {
        Some(size) => if def.fill && spec_units(size as nat, 8) > used {
            spec_units(size as nat, 8)
        } else {
            used
        },
        None => used,
    }
}

/// Where a bank lands in the output image, given the bits its items emit.
pub fn bank_extent(def: &Bankdef, emitted_bits: usize) -> (r: BankExtent)
    ensures
        r.output_offset == def.output_offset,
        r.len == spec_extent_len(*def, emitted_bits as nat),
{
    let used = units_of(emitted_bits, 8) as usize;
    let len = match def.size {
        Some(size) => {
            let whole = units_of(size, 8) as usize;
            if def.fill && whole > used {
                whole
            } else {
                used
            }
        },
        None => used,
    };
    BankExtent { output_offset: def.output_offset, len }
}

/// The number that the `n` bits of `bits` from position `lo` on spell, most
/// significant first; positions past the end count as zero.
pub open spec fn bits_value(bits: Seq<bool>, lo: int, n: nat) -> int
    decreases n,
{
    if n == 0 {
        0
    } else {
        2 * bits_value(bits, lo, (n - 1) as nat) + if 0 <= lo + n - 1 < bits.len() && bits[lo + n - 1] {
            1int
        } else {
            0int
        }
    }
}

proof fn lemma_bits_value_bound(bits: Seq<bool>, lo: int, n: nat)
    ensures
        0 <= bits_value(bits, lo, n) < two_pow(n),
    decreases n,
{
    if n > 0 {
        lemma_bits_value_bound(bits, lo, (n - 1) as nat);
    }
}

/// Writes an item's bits into address units of `unit` bits: unit `k` holds
/// bits `k * unit ..` most significant first, and the last unit is padded
/// with zero bits.
pub fn emit_units(bits: &[bool], unit: usize) -> (r: Vec<u64>)
    requires
        0 < unit <= 64,
    ensures
        r@.len() == spec_units(bits@.len(), unit as nat),
        forall|k: int| 0 <= k < r@.len() ==> #[trigger] r@[k] == bits_value(bits@, k * unit, unit as nat),
{
    let n_units = units_of(bits.len(), unit);
    let mut out: Vec<u64> = Vec::new();
    let mut k: u128 = 0;
    while k < n_units
        invariant
            0 < unit <= 64,
            n_units == spec_units(bits@.len(), unit as nat),
            n_units <= bits@.len(),
            k <= n_units,
            out@.len() == k,
            forall|m: int| 0 <= m < k ==> #[trigger] out@[m] == bits_value(bits@, m * unit, unit as nat),
        decreases n_units - k,
    {
        let mut acc: u64 = 0;
        let mut j: usize = 0;
        let ghost lo: int = k * unit;
        let len: usize = bits.len();
        assert(0 <= lo <= n_units * 64) by (nonlinear_arith)
            requires lo == k * unit, k <= n_units, unit <= 64;
        let base: u128 = k * (unit as u128);
        while j < unit
            invariant
                0 < unit <= 64,
                j <= unit,
                lo == k * unit,
                base == lo,
                0 <= lo <= n_units * 64,
                n_units <= usize::MAX,
                n_units <= bits@.len(),
                acc == bits_value(bits@, lo, j as nat),
            decreases unit - j,
        {
            proof {
                lemma_bits_value_bound(bits@, lo, j as nat);
                crate::resolver::lemma_two_pow_le_64((j + 1) as nat);
            }
            let pos: u128 = base + j as u128;
            let bit: u64 = if pos < bits.len() as u128 && bits[pos as usize] {
                1
            } else {
                0
            };
            acc = acc * 2 + bit;
            j += 1;
        }
        out.push(acc);
        k += 1;
    }
    out
}

} // verus!
