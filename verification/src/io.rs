//! The digital I/O store: bit-addressable memory banks per network node, with
//! exclusive pin-allocation bookkeeping. Reads and writes are single-bit
//! operations; allocation hands out the first free pins of a bank and never
//! frees them again.

use vstd::prelude::*;

use crate::bits::{bank_bits, bits_get, bits_len, bits_repeat, bits_set, BitBank};

verus! {

/// Identifies one physical I/O device (a rack of digital inputs or outputs).
#[derive(Clone, Copy, Debug, Hash, PartialEq, Eq, Structural)]
pub struct Address(pub u32);

impl From<u32> for Address {
    /// Wraps a raw device number.
    fn from(value: u32) -> (r: Self) {
        Address(value)
    }
}

impl vstd::std_specs::convert::FromSpecImpl<u32> for Address {
    open spec fn obeys_from_spec() -> bool {
        true
    }

    open spec fn from_spec(value: u32) -> Self {
        Address(value)
    }
}

/// Zero-based offset of one bit within a node's bank.
#[derive(Clone, Copy, Debug, PartialEq, Eq, Structural)]
pub struct PinIndex(pub u8);

/// Configuration-time failures of the I/O store. They are reported to the
/// caller at once; nothing is retried.
#[derive(Clone, Copy, Debug, PartialEq, Eq, Structural)]
pub enum IoError {
    /// No bank is registered under the given address.
    NoSuchNode,
    /// The pin index lies beyond the bank's length.
    NoSuchPin,
    /// Fewer pins are free than were requested; nothing was allocated.
    NotEnoughPins,
}

/// One node's bit memory: a growable bit array, every bit readable and
/// writable at any time.
pub struct Memory {
    bits: BitBank,
}

impl Memory {
    /// The bit values this memory holds.
    pub closed spec fn view(&self) -> Seq<bool> {
        bank_bits(self.bits)
    }

    /// A memory of `n_bytes * 8` bits, all clear.
    pub fn new_bytes(n_bytes: usize) -> (r: Self)
        requires
            n_bytes * 8 <= usize::MAX,
        ensures
            r@ == Seq::new((n_bytes * 8) as nat, |i: int| false),
    {
        Self::new_bits(n_bytes * 8)
    }

    /// A memory of `n_bits` bits, all clear.
    pub fn new_bits(n_bits: usize) -> (r: Self)
        ensures
            r@ == Seq::new(n_bits as nat, |i: int| false),
    {
        Memory { bits: bits_repeat(false, n_bits) }
    }

    /// The number of bits in this memory.
    pub fn len(&self) -> (r: usize)
        ensures
            r == self@.len(),
    {
        bits_len(&self.bits)
    }

    /// The bit at `i`, or `None` if `i` is out of range.
    pub fn get(&self, i: usize) -> (r: Option<bool>)
        ensures
            i < self@.len() ==> r == Some(self@[i as int]),
            i >= self@.len() ==> r is None,
    {
        bits_get(&self.bits, i)
    }

    /// Writes the bit at `i`.
    pub fn set(&mut self, i: usize, value: bool)
        requires
            i < old(self)@.len(),
        ensures
            final(self)@ == old(self)@.update(i as int, value),
    {
        bits_set(&mut self.bits, i, value);
    }
}

/// How many bits of `s` are clear (pins still free).
pub open spec fn count_clear(s: Seq<bool>) -> nat
    decreases s.len(),
{
    if s.len() == 0 {
        0
    } else {
        count_clear(s.drop_last()) + (if s.last() {
            0nat
        } else {
            1nat
        })
    }
}

/// Whether some pin in `pins` has index `j`.
pub open spec fn contains_pin(pins: Seq<PinIndex>, j: int) -> bool {
    exists|k: int| 0 <= k < pins.len() && pins[k].0 == j
}

/// Whether `pins` is strictly ascending by index.
pub open spec fn pins_ascending(pins: Seq<PinIndex>) -> bool {
    forall|k1: int, k2: int| 0 <= k1 < k2 < pins.len() ==> pins[k1].0 < pins[k2].0
}

/// What a successful allocation of `n` pins does to a bank's allocation bits:
/// `pins` are the `n` lowest-indexed bits that were clear in `before`, and
/// `after` has exactly them newly set.
pub open spec fn allocates(
    before: Seq<bool>,
    after: Seq<bool>,
    pins: Seq<PinIndex>,
    n: int,
) -> bool {
    &&& pins.len() == n
    &&& n <= count_clear(before)
    &&& after.len() == before.len()
    &&& pins_ascending(pins)
    &&& forall|k: int|
        0 <= k < n ==> (#[trigger] pins[k]).0 < before.len() && !before[pins[k].0 as int]
    &&& forall|k: int, j: int|
        #![trigger pins[k], contains_pin(pins, j)]
        0 <= k < n && 0 <= j < pins[k].0 && !before[j] ==> contains_pin(pins, j)
    &&& forall|j: int| 0 <= j < before.len() ==> after[j] == (before[j] || contains_pin(pins, j))
}

/// In a bank whose first `m` pins are taken and the rest free, exactly
/// `bits - m` pins are free.
pub proof fn lemma_count_clear_prefix(bits: int, m: int)
    requires
        0 <= m <= bits,
    ensures
        count_clear(Seq::new(bits as nat, |p: int| p < m)) == bits - m,
    decreases bits,
{
    let s = Seq::new(bits as nat, |p: int| p < m);
    if bits == 0 {
    } else if m == bits {
        assert(s.drop_last() =~= Seq::new((bits - 1) as nat, |p: int| p < m - 1));
        lemma_count_clear_prefix(bits - 1, m - 1);
    } else {
        assert(s.drop_last() =~= Seq::new((bits - 1) as nat, |p: int| p < m));
        lemma_count_clear_prefix(bits - 1, m);
    }
}

/// With the first `m` pins taken, the pins up to position `k` of an
/// allocation are exactly the next consecutive indices.
proof fn lemma_allocates_prefix_pins(
    before: Seq<bool>,
    after: Seq<bool>,
    pins: Seq<PinIndex>,
    n: int,
    m: int,
    bits: int,
    k: int,
)
    requires
        before == Seq::new(bits as nat, |p: int| p < m),
        0 <= m,
        0 <= n,
        m + n <= bits,
        allocates(before, after, pins, n),
        0 <= k < n,
    ensures
        forall|j: int| 0 <= j <= k ==> (#[trigger] pins[j]).0 == m + j,
    decreases k,
{
    if k > 0 {
        lemma_allocates_prefix_pins(before, after, pins, n, m, bits, k - 1);
    }
    assert(!before[pins[k].0 as int]);
    assert(pins[k].0 >= m);
    if pins[k].0 < m + k {
        let j = pins[k].0 - m;
        assert(pins[j].0 == m + j);
        assert(false);
    }
    if pins[k].0 > m + k {
        assert(!before[m + k]);
        assert(contains_pin(pins, m + k));
        let kk = choose|kk: int| 0 <= kk < pins.len() && (#[trigger] pins[kk]).0 == m + k;
        if kk < k {
            assert(pins[kk].0 == m + kk);
        }
        assert(false);
    }
}

/// Allocating `n` pins from a bank whose first `m` pins are taken hands out
/// exactly the next `n` indices and leaves the first `m + n` pins taken.
pub proof fn lemma_allocates_prefix(
    before: Seq<bool>,
    after: Seq<bool>,
    pins: Seq<PinIndex>,
    n: int,
    m: int,
    bits: int,
)
    requires
        before == Seq::new(bits as nat, |p: int| p < m),
        0 <= m,
        0 <= n,
        m + n <= bits,
        allocates(before, after, pins, n),
    ensures
        forall|k: int| 0 <= k < n ==> (#[trigger] pins[k]).0 == m + k,
        after =~= Seq::new(bits as nat, |p: int| p < m + n),
{
    if n > 0 {
        lemma_allocates_prefix_pins(before, after, pins, n, m, bits, n - 1);
    }
    assert forall|p: int| 0 <= p < bits implies after[p] == (p < m + n) by {
        if p < m {
        } else if p < m + n {
            assert(pins[p - m].0 == p);
            assert(contains_pin(pins, p));
        } else {
            if contains_pin(pins, p) {
                let kk = choose|kk: int| 0 <= kk < pins.len() && (#[trigger] pins[kk]).0 == p;
                assert(pins[kk].0 == m + kk);
                assert(false);
            }
        }
    }
}

/// A shorter prefix never has more clear bits than the whole.
proof fn lemma_count_clear_take(s: Seq<bool>, i: int)
    requires
        0 <= i <= s.len(),
    ensures
        count_clear(s.take(i)) <= count_clear(s),
    decreases s.len() - i,
{
    if i == s.len() {
        assert(s.take(i) =~= s);
    } else {
        lemma_count_clear_take(s, i + 1);
        assert(s.take(i + 1).drop_last() =~= s.take(i));
    }
}

/// The pins a successful allocation handed out, in ascending order.
pub struct TakenPins(pub Vec<PinIndex>);

impl TakenPins {
    /// The pins as a sequence.
    pub open spec fn view(&self) -> Seq<PinIndex> {
        self.0@
    }

    /// How many pins were taken.
    pub fn len(&self) -> (r: usize)
        ensures
            r == self@.len(),
    {
        self.0.len()
    }

    /// The pin at position `k` of the allocation.
    pub fn get(&self, k: usize) -> (r: PinIndex)
        requires
            k < self@.len(),
        ensures
            r == self@[k as int],
    {
        self.0[k]
    }
}

/// Allocation bookkeeping for one bank: one bit per pin, set once the pin has
/// been handed out. Pins are never freed.
pub struct FreePins {
    allocated: BitBank,
}

impl FreePins {
    /// The allocation bits: `true` means the pin is taken.
    pub closed spec fn view(&self) -> Seq<bool> {
        bank_bits(self.allocated)
    }

    /// Every pin index must fit in a `PinIndex`.
    pub open spec fn wf(&self) -> bool {
        self@.len() <= 256
    }

    /// A bank of `size` pins, all free.
    pub fn new(size: usize) -> (r: Self)
        requires
            size <= 256,
        ensures
            r@ == Seq::new(size as nat, |i: int| false),
            r.wf(),
    {
        FreePins { allocated: bits_repeat(false, size) }
    }

    /// The number of pins still free.
    pub fn len(&self) -> (r: usize)
        ensures
            r == count_clear(self@),
    {
        let n = bits_len(&self.allocated);
        let mut count: usize = 0;
        let mut i: usize = 0;
        while i < n
            invariant
                i <= n,
                n == self@.len(),
                count == count_clear(self@.take(i as int)),
                count <= i,
            decreases n - i,
        {
            let b = match bits_get(&self.allocated, i) {
                Some(b) => b,
                None => false,
            };
            proof {
                assert(self@.take(i + 1).drop_last() =~= self@.take(i as int));
            }
            if !b {
                count = count + 1;
            }
            i = i + 1;
        }
        proof {
            assert(self@.take(n as int) =~= self@);
        }
        count
    }

    /// Takes the lowest-indexed free pin, if any is left, and marks it
    /// allocated.
    pub fn next(&mut self) -> (r: Option<PinIndex>)
        requires
            old(self).wf(),
        ensures
            final(self).wf(),
            match r {
                Some(p) => {
                    &&& p.0 < old(self)@.len()
                    &&& !old(self)@[p.0 as int]
                    &&& forall|j: int| 0 <= j < p.0 ==> old(self)@[j]
                    &&& final(self)@ == old(self)@.update(p.0 as int, true)
                },
                None => {
                    &&& final(self)@ == old(self)@
                    &&& forall|j: int| 0 <= j < old(self)@.len() ==> old(self)@[j]
                },
            },
    {
        let ghost s0 = self@;
        let n = bits_len(&self.allocated);
        let mut i: usize = 0;
        while i < n
            invariant
                i <= n,
                n == s0.len(),
                old(self)@ == s0,
                old(self).wf(),
                self@ == s0,
                self.wf(),
                forall|j: int| 0 <= j < i ==> s0[j],
            decreases n - i,
        {
            let b = match bits_get(&self.allocated, i) {
                Some(b) => b,
                None => true,
            };
            if !b {
                assert(i < 256);
                assert(i as u8 as int == i as int);
                bits_set(&mut self.allocated, i, true);
                return Some(PinIndex(i as u8));
            }
            i = i + 1;
        }
        None
    }

    /// Allocates the `n` lowest-indexed free pins at once, marking all of
    /// them, or fails without allocating anything when fewer than `n` pins
    /// are free.
    pub fn take_pins(&mut self, n: usize) -> (r: Option<TakenPins>)
        requires
            old(self).wf(),
        ensures
            final(self).wf(),
            final(self)@.len() == old(self)@.len(),
            match r {
                Some(pins) => allocates(old(self)@, final(self)@, pins@, n as int),
                None => {
                    &&& count_clear(old(self)@) < n
                    &&& final(self)@ == old(self)@
                },
            },
    {
        let ghost s0 = self@;
        let len = bits_len(&self.allocated);
        let mut found: Vec<PinIndex> = Vec::new();
        let mut i: usize = 0;
        while i < len && found.len() < n
            invariant
                i <= len,
                len == s0.len(),
                old(self)@ == s0,
                old(self).wf(),
                self@ == s0,
                self.wf(),
                found@.len() <= n,
                found@.len() == count_clear(s0.take(i as int)),
                forall|k: int|
                    0 <= k < found@.len() ==> (#[trigger] found@[k]).0 < i && !s0[found@[k].0 as int],
                pins_ascending(found@),
                forall|j: int| 0 <= j < i && !s0[j] ==> contains_pin(found@, j),
            decreases len - i,
        {
            let b = match bits_get(&self.allocated, i) {
                Some(b) => b,
                None => true,
            };
            proof {
                assert(s0.take(i + 1).drop_last() =~= s0.take(i as int));
            }
            if !b {
                assert(i < 256);
                assert(i as u8 as int == i as int);
                let ghost pre = found@;
                found.push(PinIndex(i as u8));
                proof {
                    assert forall|j: int| 0 <= j < i + 1 && !s0[j] implies contains_pin(
                        found@,
                        j,
                    ) by {
                        if j == i {
                            assert(found@[found@.len() - 1].0 == j);
                        } else {
                            assert(contains_pin(pre, j));
                            let k = choose|k: int| 0 <= k < pre.len() && (#[trigger] pre[k]).0 == j;
                            assert(found@[k].0 == j);
                        }
                    }
                }
            }
            i = i + 1;
        }
        if found.len() < n {
            proof {
                assert(s0.take(len as int) =~= s0);
            }
            return None;
        }
        proof {
            lemma_count_clear_take(s0, i as int);
        }
        let ghost pins_seq = found@;
        let n_found = found.len();
        let mut k: usize = 0;
        while k < n_found
            invariant
                k <= n_found,
                n_found == n,
                found@ == pins_seq,
                pins_seq.len() == n,
                old(self)@ == s0,
                old(self).wf(),
                self@.len() == s0.len(),
                self.wf(),
                forall|kk: int| 0 <= kk < n ==> (#[trigger] pins_seq[kk]).0 < s0.len(),
                forall|j: int| 0 <= j < s0.len() && s0[j] ==> self@[j],
                forall|kk: int| 0 <= kk < k ==> self@[(#[trigger] pins_seq[kk]).0 as int],
                forall|j: int|
                    0 <= j < s0.len() && #[trigger] self@[j] && !s0[j] ==> contains_pin(
                        pins_seq.take(k as int),
                        j,
                    ),
            decreases n_found - k,
        {
            let p = found[k];
            let ghost before = self@;
            bits_set(&mut self.allocated, p.0 as usize, true);
            proof {
                assert forall|j: int|
                    0 <= j < s0.len() && #[trigger] self@[j] && !s0[j] implies contains_pin(
                    pins_seq.take(k + 1),
                    j,
                ) by {
                    if j == p.0 as int {
                        assert(pins_seq.take(k + 1)[k as int].0 == j);
                    } else {
                        assert(before[j]);
                        let kk = choose|kk: int|
                            0 <= kk < k && (#[trigger] pins_seq.take(k as int)[kk]).0 == j;
                        assert(pins_seq.take(k + 1)[kk].0 == j);
                    }
                }
            }
            k = k + 1;
        }
        proof {
            assert(pins_seq.take(n as int) =~= pins_seq);
            assert forall|j: int| 0 <= j < s0.len() implies self@[j] == (s0[j] || contains_pin(
                pins_seq,
                j,
            )) by {
                if self@[j] && !s0[j] {
                    assert(contains_pin(pins_seq.take(n as int), j));
                }
                if !self@[j] {
                    if contains_pin(pins_seq, j) {
                        let kk = choose|kk: int|
                            0 <= kk < pins_seq.len() && (#[trigger] pins_seq[kk]).0 == j;
                        assert(self@[pins_seq[kk].0 as int]);
                    }
                }
            }
        }
        Some(TakenPins(found))
    }
}

/// Pin allocation is exclusive: the pins of a second successful allocation
/// from the same bank never overlap those of the first. The hypotheses are
/// exactly what two successive [`FreePins::take_pins`] successes ensure.
pub proof fn lemma_pin_allocation_exclusive(
    s0: Seq<bool>,
    s1: Seq<bool>,
    s2: Seq<bool>,
    pins1: Seq<PinIndex>,
    pins2: Seq<PinIndex>,
    n1: int,
    n2: int,
)
    requires
        allocates(s0, s1, pins1, n1),
        allocates(s1, s2, pins2, n2),
    ensures
        forall|k1: int, k2: int|
            0 <= k1 < pins1.len() && 0 <= k2 < pins2.len() ==> (#[trigger] pins1[k1]).0 != (
            #[trigger] pins2[k2]).0,
{
    assert forall|k1: int, k2: int|
        0 <= k1 < pins1.len() && 0 <= k2 < pins2.len() implies (#[trigger] pins1[k1]).0 != (
    #[trigger] pins2[k2]).0 by {
        let p = pins1[k1].0 as int;
        assert(contains_pin(pins1, p));
        assert(s1[p]);
    }
}

/// One I/O node: an address, its bit memory, and the allocation bookkeeping
/// for that memory's pins.
pub struct IoNode {
    pub address: Address,
    pub memory: Memory,
    pub pins: FreePins,
}

impl IoNode {
    /// One allocation bit per memory bit, and every pin index representable.
    pub open spec fn wf(&self) -> bool {
        &&& self.pins.wf()
        &&& self.memory@.len() == self.pins@.len()
    }

    /// A node with `n_bits` bits of memory, all clear, all pins free.
    pub fn new(address: Address, n_bits: usize) -> (r: Self)
        requires
            n_bits <= 256,
        ensures
            r.wf(),
            r.address == address,
            r.memory@ == Seq::new(n_bits as nat, |i: int| false),
            r.pins@ == Seq::new(n_bits as nat, |i: int| false),
    {
        IoNode { address, memory: Memory::new_bits(n_bits), pins: FreePins::new(n_bits) }
    }
}

/// Whether some node in `nodes` has address `a`.
pub open spec fn has_node(nodes: Seq<IoNode>, a: Address) -> bool {
    exists|i: int| 0 <= i < nodes.len() && (#[trigger] nodes[i]).address == a
}

/// The index of the node with address `a` (meaningful under [`nodes_wf`],
/// which makes addresses unique).
pub open spec fn node_index(nodes: Seq<IoNode>, a: Address) -> int {
    choose|i: int| 0 <= i < nodes.len() && (#[trigger] nodes[i]).address == a
}

/// Every node well-formed, and no two nodes sharing an address.
pub open spec fn nodes_wf(nodes: Seq<IoNode>) -> bool {
    &&& forall|i: int| 0 <= i < nodes.len() ==> (#[trigger] nodes[i]).wf()
    &&& forall|i: int, j: int|
        #![trigger nodes[i].address, nodes[j].address]
        0 <= i < j < nodes.len() ==> nodes[i].address != nodes[j].address
}

/// Finds the node with address `a`.
fn find_node(nodes: &Vec<IoNode>, a: Address) -> (r: Option<usize>)
    requires
        nodes_wf(nodes@),
    ensures
        match r {
            Some(i) => {
                &&& i < nodes@.len()
                &&& nodes@[i as int].address == a
                &&& i as int == node_index(nodes@, a)
            },
            None => !has_node(nodes@, a),
        },
{
    let n = nodes.len();
    let mut i: usize = 0;
    while i < n
        invariant
            i <= n,
            n == nodes@.len(),
            nodes_wf(nodes@),
            forall|j: int| 0 <= j < i ==> (#[trigger] nodes@[j]).address != a,
        decreases n - i,
    {
        if nodes[i].address == a {
            proof {
                let w = node_index(nodes@, a);
                assert(nodes@[i as int].address == a);
                assert(0 <= w < nodes@.len() && nodes@[w].address == a);
            }
            return Some(i);
        }
        i = i + 1;
    }
    None
}

/// A node lookup is stable under any mutation that keeps every node's
/// address in place.
pub proof fn lemma_node_index_stable(before: Seq<IoNode>, after: Seq<IoNode>, a: Address)
    requires
        nodes_wf(before),
        nodes_wf(after),
        after.len() == before.len(),
        forall|j: int| 0 <= j < before.len() ==> (#[trigger] after[j]).address == before[j].address,
        has_node(before, a),
    ensures
        has_node(after, a),
        node_index(after, a) == node_index(before, a),
        0 <= node_index(before, a) < before.len(),
        before[node_index(before, a)].address == a,
{
    let i = node_index(before, a);
    assert(0 <= i < before.len() && before[i].address == a);
    assert(after[i].address == a);
    assert(has_node(after, a));
    let i2 = node_index(after, a);
    assert(0 <= i2 < after.len() && after[i2].address == a);
    if i < i2 {
        assert(after[i].address != after[i2].address);
    } else if i2 < i {
        assert(after[i2].address != after[i].address);
    }
}

/// The digital I/O store: one list of input nodes and one of output nodes,
/// each keyed by address.
pub struct IoDevices {
    pub digital_inputs: Vec<IoNode>,
    pub digital_outputs: Vec<IoNode>,
}

/// `after` equals `before` with node `i`'s memory bit `pin` set to `value`
/// and everything else untouched.
pub open spec fn writes_bit(
    before: Seq<IoNode>,
    after: Seq<IoNode>,
    i: int,
    pin: PinIndex,
    value: bool,
) -> bool {
    &&& after.len() == before.len()
    &&& forall|j: int| 0 <= j < before.len() && j != i ==> after[j] == before[j]
    &&& after[i].address == before[i].address
    &&& after[i].pins == before[i].pins
    &&& after[i].memory@ == before[i].memory@.update(pin.0 as int, value)
}

impl IoDevices {
    /// Both node lists well-formed.
    pub open spec fn wf(&self) -> bool {
        &&& nodes_wf(self.digital_inputs@)
        &&& nodes_wf(self.digital_outputs@)
    }

    /// An empty store with no nodes.
    pub fn new() -> (r: Self)
        ensures
            r.wf(),
            r.digital_inputs@.len() == 0,
            r.digital_outputs@.len() == 0,
    {
        IoDevices { digital_inputs: Vec::new(), digital_outputs: Vec::new() }
    }

    /// Registers an input node. Fails (returning `false`, changing nothing)
    /// when the address is already in use.
    pub fn add_input_node(&mut self, address: Address, n_bits: usize) -> (r: bool)
        requires
            old(self).wf(),
            n_bits <= 256,
        ensures
            final(self).wf(),
            final(self).digital_outputs == old(self).digital_outputs,
            r == !has_node(old(self).digital_inputs@, address),
            r ==> {
                &&& final(self).digital_inputs@.len() == old(self).digital_inputs@.len() + 1
                &&& forall|j: int|
                    0 <= j < old(self).digital_inputs@.len() ==> final(self).digital_inputs@[j]
                        == old(self).digital_inputs@[j]
                &&& final(self).digital_inputs@.last().address == address
                &&& final(self).digital_inputs@.last().memory@ == Seq::new(
                    n_bits as nat,
                    |i: int| false,
                )
                &&& final(self).digital_inputs@.last().pins@ == Seq::new(
                    n_bits as nat,
                    |i: int| false,
                )
            },
            !r ==> final(self).digital_inputs == old(self).digital_inputs,
    {
        if find_node(&self.digital_inputs, address).is_some() {
            return false;
        }
        self.digital_inputs.push(IoNode::new(address, n_bits));
        proof {
            assert forall|i: int, j: int|
                #![trigger self.digital_inputs@[i].address, self.digital_inputs@[j].address]
                0 <= i < j < self.digital_inputs@.len() implies self.digital_inputs@[i].address
                != self.digital_inputs@[j].address by {
                if j + 1 == self.digital_inputs@.len() {
                    assert(self.digital_inputs@[i].address != address);
                }
            }
        }
        true
    }

    /// Registers an output node. Fails (returning `false`, changing nothing)
    /// when the address is already in use.
    pub fn add_output_node(&mut self, address: Address, n_bits: usize) -> (r: bool)
        requires
            old(self).wf(),
            n_bits <= 256,
        ensures
            final(self).wf(),
            final(self).digital_inputs == old(self).digital_inputs,
            r == !has_node(old(self).digital_outputs@, address),
            r ==> {
                &&& final(self).digital_outputs@.len() == old(self).digital_outputs@.len() + 1
                &&& forall|j: int|
                    0 <= j < old(self).digital_outputs@.len() ==> final(self).digital_outputs@[j]
                        == old(self).digital_outputs@[j]
                &&& final(self).digital_outputs@.last().address == address
                &&& final(self).digital_outputs@.last().memory@ == Seq::new(
                    n_bits as nat,
                    |i: int| false,
                )
                &&& final(self).digital_outputs@.last().pins@ == Seq::new(
                    n_bits as nat,
                    |i: int| false,
                )
            },
            !r ==> final(self).digital_outputs == old(self).digital_outputs,
    {
        if find_node(&self.digital_outputs, address).is_some() {
            return false;
        }
        self.digital_outputs.push(IoNode::new(address, n_bits));
        proof {
            assert forall|i: int, j: int|
                #![trigger self.digital_outputs@[i].address, self.digital_outputs@[j].address]
                0 <= i < j < self.digital_outputs@.len() implies self.digital_outputs@[i].address
                != self.digital_outputs@[j].address by {
                if j + 1 == self.digital_outputs@.len() {
                    assert(self.digital_outputs@[i].address != address);
                }
            }
        }
        true
    }

    /// Allocates the `n` lowest-indexed free input pins of `node`, atomically:
    /// when fewer than `n` are free, nothing is allocated.
    pub fn allocate_input_pins(&mut self, node: Address, n: usize) -> (r: Result<
        TakenPins,
        IoError,
    >)
        requires
            old(self).wf(),
        ensures
            final(self).wf(),
            final(self).digital_outputs == old(self).digital_outputs,
            final(self).digital_inputs@.len() == old(self).digital_inputs@.len(),
            match r {
                Ok(pins) => {
                    let i = node_index(old(self).digital_inputs@, node);
                    &&& has_node(old(self).digital_inputs@, node)
                    &&& allocates(
                        old(self).digital_inputs@[i].pins@,
                        final(self).digital_inputs@[i].pins@,
                        pins@,
                        n as int,
                    )
                    &&& final(self).digital_inputs@[i].address == old(self).digital_inputs@[i].address
                    &&& final(self).digital_inputs@[i].memory == old(self).digital_inputs@[i].memory
                    &&& forall|j: int|
                        0 <= j < old(self).digital_inputs@.len() && j != i ==> final(self).digital_inputs@[j] == old(self).digital_inputs@[j]
                },
                Err(IoError::NoSuchNode) => {
                    &&& !has_node(old(self).digital_inputs@, node)
                    &&& final(self).digital_inputs == old(self).digital_inputs
                },
                Err(IoError::NotEnoughPins) => {
                    let i = node_index(old(self).digital_inputs@, node);
                    &&& has_node(old(self).digital_inputs@, node)
                    &&& count_clear(old(self).digital_inputs@[i].pins@) < n
                    &&& final(self).digital_inputs@[i].pins@ == old(self).digital_inputs@[i].pins@
                    &&& final(self).digital_inputs@[i].address == old(self).digital_inputs@[i].address
                    &&& final(self).digital_inputs@[i].memory == old(self).digital_inputs@[i].memory
                    &&& forall|j: int|
                        0 <= j < old(self).digital_inputs@.len() && j != i ==> final(self).digital_inputs@[j] == old(self).digital_inputs@[j]
                },
                Err(IoError::NoSuchPin) => false,
            },
    {
        let idx = match find_node(&self.digital_inputs, node) {
            Some(i) => i,
            None => {
                return Err(IoError::NoSuchNode);
            },
        };
        let node_ref = &mut self.digital_inputs[idx];
        let taken = node_ref.pins.take_pins(n);
        match taken {
            Some(pins) => Ok(pins),
            None => Err(IoError::NotEnoughPins),
        }
    }

    /// Allocates the `n` lowest-indexed free output pins of `node`,
    /// atomically: when fewer than `n` are free, nothing is allocated.
    pub fn allocate_output_pins(&mut self, node: Address, n: usize) -> (r: Result<
        TakenPins,
        IoError,
    >)
        requires
            old(self).wf(),
        ensures
            final(self).wf(),
            final(self).digital_inputs == old(self).digital_inputs,
            final(self).digital_outputs@.len() == old(self).digital_outputs@.len(),
            match r {
                Ok(pins) => {
                    let i = node_index(old(self).digital_outputs@, node);
                    &&& has_node(old(self).digital_outputs@, node)
                    &&& allocates(
                        old(self).digital_outputs@[i].pins@,
                        final(self).digital_outputs@[i].pins@,
                        pins@,
                        n as int,
                    )
                    &&& final(self).digital_outputs@[i].address == old(self).digital_outputs@[i].address
                    &&& final(self).digital_outputs@[i].memory == old(self).digital_outputs@[i].memory
                    &&& forall|j: int|
                        0 <= j < old(self).digital_outputs@.len() && j != i ==> final(self).digital_outputs@[j] == old(self).digital_outputs@[j]
                },
                Err(IoError::NoSuchNode) => {
                    &&& !has_node(old(self).digital_outputs@, node)
                    &&& final(self).digital_outputs == old(self).digital_outputs
                },
                Err(IoError::NotEnoughPins) => {
                    let i = node_index(old(self).digital_outputs@, node);
                    &&& has_node(old(self).digital_outputs@, node)
                    &&& count_clear(old(self).digital_outputs@[i].pins@) < n
                    &&& final(self).digital_outputs@[i].pins@ == old(self).digital_outputs@[i].pins@
                    &&& final(self).digital_outputs@[i].address == old(self).digital_outputs@[i].address
                    &&& final(self).digital_outputs@[i].memory == old(self).digital_outputs@[i].memory
                    &&& forall|j: int|
                        0 <= j < old(self).digital_outputs@.len() && j != i ==> final(self).digital_outputs@[j] == old(self).digital_outputs@[j]
                },
                Err(IoError::NoSuchPin) => false,
            },
    {
        let idx = match find_node(&self.digital_outputs, node) {
            Some(i) => i,
            None => {
                return Err(IoError::NoSuchNode);
            },
        };
        let node_ref = &mut self.digital_outputs[idx];
        let taken = node_ref.pins.take_pins(n);
        match taken {
            Some(pins) => Ok(pins),
            None => Err(IoError::NotEnoughPins),
        }
    }

    /// Reads one input bit.
    pub fn read_input(&self, node: Address, pin: PinIndex) -> (r: Result<bool, IoError>)
        requires
            self.wf(),
        ensures
            match r {
                Ok(b) => {
                    let i = node_index(self.digital_inputs@, node);
                    &&& has_node(self.digital_inputs@, node)
                    &&& pin.0 < self.digital_inputs@[i].memory@.len()
                    &&& b == self.digital_inputs@[i].memory@[pin.0 as int]
                },
                Err(IoError::NoSuchNode) => !has_node(self.digital_inputs@, node),
                Err(IoError::NoSuchPin) => {
                    let i = node_index(self.digital_inputs@, node);
                    &&& has_node(self.digital_inputs@, node)
                    &&& pin.0 >= self.digital_inputs@[i].memory@.len()
                },
                Err(IoError::NotEnoughPins) => false,
            },
    {
        let idx = match find_node(&self.digital_inputs, node) {
            Some(i) => i,
            None => {
                return Err(IoError::NoSuchNode);
            },
        };
        match self.digital_inputs[idx].memory.get(pin.0 as usize) {
            Some(b) => Ok(b),
            None => Err(IoError::NoSuchPin),
        }
    }

    /// Reads one output bit.
    pub fn read_output(&self, node: Address, pin: PinIndex) -> (r: Result<bool, IoError>)
        requires
            self.wf(),
        ensures
            match r {
                Ok(b) => {
                    let i = node_index(self.digital_outputs@, node);
                    &&& has_node(self.digital_outputs@, node)
                    &&& pin.0 < self.digital_outputs@[i].memory@.len()
                    &&& b == self.digital_outputs@[i].memory@[pin.0 as int]
                },
                Err(IoError::NoSuchNode) => !has_node(self.digital_outputs@, node),
                Err(IoError::NoSuchPin) => {
                    let i = node_index(self.digital_outputs@, node);
                    &&& has_node(self.digital_outputs@, node)
                    &&& pin.0 >= self.digital_outputs@[i].memory@.len()
                },
                Err(IoError::NotEnoughPins) => false,
            },
    {
        let idx = match find_node(&self.digital_outputs, node) {
            Some(i) => i,
            None => {
                return Err(IoError::NoSuchNode);
            },
        };
        match self.digital_outputs[idx].memory.get(pin.0 as usize) {
            Some(b) => Ok(b),
            None => Err(IoError::NoSuchPin),
        }
    }

    /// Writes one input bit (the sensor bridge's side of the store).
    pub fn write_input(&mut self, node: Address, pin: PinIndex, value: bool) -> (r: Result<
        (),
        IoError,
    >)
        requires
            old(self).wf(),
        ensures
            final(self).wf(),
            final(self).digital_outputs == old(self).digital_outputs,
            final(self).digital_inputs@.len() == old(self).digital_inputs@.len(),
            match r {
                Ok(()) => {
                    let i = node_index(old(self).digital_inputs@, node);
                    &&& has_node(old(self).digital_inputs@, node)
                    &&& pin.0 < old(self).digital_inputs@[i].memory@.len()
                    &&& writes_bit(
                        old(self).digital_inputs@,
                        final(self).digital_inputs@,
                        i,
                        pin,
                        value,
                    )
                },
                Err(IoError::NoSuchNode) => {
                    &&& !has_node(old(self).digital_inputs@, node)
                    &&& final(self).digital_inputs == old(self).digital_inputs
                },
                Err(IoError::NoSuchPin) => {
                    let i = node_index(old(self).digital_inputs@, node);
                    &&& has_node(old(self).digital_inputs@, node)
                    &&& pin.0 >= old(self).digital_inputs@[i].memory@.len()
                    &&& final(self).digital_inputs == old(self).digital_inputs
                },
                Err(IoError::NotEnoughPins) => false,
            },
    {
        let idx = match find_node(&self.digital_inputs, node) {
            Some(i) => i,
            None => {
                return Err(IoError::NoSuchNode);
            },
        };
        if pin.0 as usize >= self.digital_inputs[idx].memory.len() {
            return Err(IoError::NoSuchPin);
        }
        let node_ref = &mut self.digital_inputs[idx];
        node_ref.memory.set(pin.0 as usize, value);
        Ok(())
    }

    /// Writes one output bit (motor actuation, or a manual override).
    pub fn write_output(&mut self, node: Address, pin: PinIndex, value: bool) -> (r: Result<
        (),
        IoError,
    >)
        requires
            old(self).wf(),
        ensures
            final(self).wf(),
            final(self).digital_inputs == old(self).digital_inputs,
            final(self).digital_outputs@.len() == old(self).digital_outputs@.len(),
            match r {
                Ok(()) => {
                    let i = node_index(old(self).digital_outputs@, node);
                    &&& has_node(old(self).digital_outputs@, node)
                    &&& pin.0 < old(self).digital_outputs@[i].memory@.len()
                    &&& writes_bit(
                        old(self).digital_outputs@,
                        final(self).digital_outputs@,
                        i,
                        pin,
                        value,
                    )
                },
                Err(IoError::NoSuchNode) => {
                    &&& !has_node(old(self).digital_outputs@, node)
                    &&& final(self).digital_outputs == old(self).digital_outputs
                },
                Err(IoError::NoSuchPin) => {
                    let i = node_index(old(self).digital_outputs@, node);
                    &&& has_node(old(self).digital_outputs@, node)
                    &&& pin.0 >= old(self).digital_outputs@[i].memory@.len()
                    &&& final(self).digital_outputs == old(self).digital_outputs
                },
                Err(IoError::NotEnoughPins) => false,
            },
    {
        let idx = match find_node(&self.digital_outputs, node) {
            Some(i) => i,
            None => {
                return Err(IoError::NoSuchNode);
            },
        };
        if pin.0 as usize >= self.digital_outputs[idx].memory.len() {
            return Err(IoError::NoSuchPin);
        }
        let node_ref = &mut self.digital_outputs[idx];
        node_ref.memory.set(pin.0 as usize, value);
        Ok(())
    }
}

/// An inspector-side or bridge-side request to set one input bit.
#[derive(Clone, Copy, Debug, PartialEq, Eq, Structural)]
pub struct SwitchSet {
    /// The input node whose memory is addressed.
    pub target: Address,
    /// The bit within that node's bank.
    pub slot: PinIndex,
    /// The value to write.
    pub value: bool,
}

/// Applies a [`SwitchSet`] to the store's input bank.
pub fn on_switch_set(io: &mut IoDevices, ev: SwitchSet) -> (r: Result<(), IoError>)
    requires
        old(io).wf(),
    ensures
        final(io).wf(),
        final(io).digital_outputs == old(io).digital_outputs,
        final(io).digital_inputs@.len() == old(io).digital_inputs@.len(),
        match r {
            Ok(()) => {
                let i = node_index(old(io).digital_inputs@, ev.target);
                &&& has_node(old(io).digital_inputs@, ev.target)
                &&& ev.slot.0 < old(io).digital_inputs@[i].memory@.len()
                &&& writes_bit(old(io).digital_inputs@, final(io).digital_inputs@, i, ev.slot, ev.value)
            },
            Err(IoError::NoSuchNode) => {
                &&& !has_node(old(io).digital_inputs@, ev.target)
                &&& final(io).digital_inputs == old(io).digital_inputs
            },
            Err(IoError::NoSuchPin) => {
                let i = node_index(old(io).digital_inputs@, ev.target);
                &&& has_node(old(io).digital_inputs@, ev.target)
                &&& ev.slot.0 >= old(io).digital_inputs@[i].memory@.len()
                &&& final(io).digital_inputs == old(io).digital_inputs
            },
            Err(IoError::NotEnoughPins) => false,
        },
{
    io.write_input(ev.target, ev.slot, ev.value)
}

} // verus!
