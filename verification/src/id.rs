//! 160-bit node identifiers, the XOR metric, inclusive ranges over the id
//! space, and compact network addresses.

use vstd::prelude::*;

verus! {

/// 2^128, the weight of the high word of an [`Id`].
pub open spec fn pow2_128() -> nat {
    0x100000000000000000000000000000000nat
}

/// The largest 160-bit value, `2^160 - 1`.
pub open spec fn id_max_nat() -> nat {
    0xffffffffffffffffffffffffffffffffffffffffnat
}

/// A 160-bit node identifier, split into a 32-bit high word and a 128-bit
/// low word. Its mathematical value is `hi * 2^128 + lo`.
#[derive(Clone, Copy, Debug, PartialEq, Eq, Hash, Structural)]
pub struct Id {
    pub hi: u32,
    pub lo: u128,
}

impl View for Id {
    type V = nat;

    open spec fn view(&self) -> nat {
        self.hi as nat * pow2_128() + self.lo as nat
    }
}

/// The value of every id lies in `[0, 2^160 - 1]`.
pub proof fn lemma_id_bound(a: Id)
    ensures
        a@ <= id_max_nat(),
{
    assert(a.hi as nat * pow2_128() <= 0xffffffff * pow2_128()) by (nonlinear_arith)
        requires
            a.hi as nat <= 0xffffffff,
    ;
}

/// Comparing ids by value is the same as comparing `(hi, lo)` pairs
/// lexicographically.
pub proof fn lemma_id_order(a: Id, b: Id)
    ensures
        (a@ < b@) <==> (a.hi < b.hi || (a.hi == b.hi && a.lo < b.lo)),
{
    if a.hi < b.hi {
        assert(a.hi as nat * pow2_128() + pow2_128() <= b.hi as nat * pow2_128())
            by (nonlinear_arith)
            requires
                a.hi as nat + 1 <= b.hi as nat,
        ;
    }
    if b.hi < a.hi {
        assert(b.hi as nat * pow2_128() + pow2_128() <= a.hi as nat * pow2_128())
            by (nonlinear_arith)
            requires
                b.hi as nat + 1 <= a.hi as nat,
        ;
    }
}

/// Two ids with the same value are the same id.
pub proof fn lemma_id_injective(a: Id, b: Id)
    requires
        a@ == b@,
    ensures
        a == b,
{
    lemma_id_order(a, b);
    lemma_id_order(b, a);
}

impl Id {
    /// The smallest id, all zero bits.
    pub fn min() -> (r: Id)
        ensures
            r@ == 0,
    {
        Id { hi: 0, lo: 0 }
    }

    /// The largest id, all one bits.
    pub fn max() -> (r: Id)
        ensures
            r@ == id_max_nat(),
    {
        Id { hi: u32::MAX, lo: u128::MAX }
    }

    /// Value comparison: strictly less.
    pub fn lt(&self, other: &Id) -> (r: bool)
        ensures
            r == (self@ < other@),
    {
        proof {
            lemma_id_order(*self, *other);
        }
        if self.hi != other.hi {
            self.hi < other.hi
        } else {
            self.lo < other.lo
        }
    }

    /// Value comparison: less or equal.
    pub fn le(&self, other: &Id) -> (r: bool)
        ensures
            r == (self@ <= other@),
    {
        proof {
            lemma_id_order(*other, *self);
        }
        if self.hi != other.hi {
            self.hi < other.hi
        } else {
            self.lo <= other.lo
        }
    }

    /// The XOR distance to `other`: each word is combined bitwise.
    pub fn distance(&self, other: &Id) -> (r: Id)
        ensures
            r.hi == self.hi ^ other.hi,
            r.lo == self.lo ^ other.lo,
    {
        Id { hi: self.hi ^ other.hi, lo: self.lo ^ other.lo }
    }

    /// The value one greater, saturating at the largest id.
    pub fn next(&self) -> (r: Id)
        ensures
            self@ == id_max_nat() ==> r@ == self@,
            self@ < id_max_nat() ==> r@ == self@ + 1,
    {
        proof {
            lemma_id_bound(*self);
        }
        if self.lo == u128::MAX {
            if self.hi == u32::MAX {
                *self
            } else {
                Id { hi: self.hi + 1, lo: 0 }
            }
        } else {
            Id { hi: self.hi, lo: self.lo + 1 }
        }
    }

    /// The difference `self - other` of the underlying values.
    pub fn sub_id(&self, other: &Id) -> (r: Id)
        requires
            other@ <= self@,
        ensures
            r@ == self@ - other@,
    {
        proof {
            lemma_id_order(*self, *other);
        }
        if self.lo >= other.lo {
            Id { hi: self.hi - other.hi, lo: self.lo - other.lo }
        } else {
            Id { hi: self.hi - other.hi - 1, lo: (u128::MAX - other.lo) + self.lo + 1 }
        }
    }

    /// The sum `self + other` of the underlying values.
    pub fn add_id(&self, other: &Id) -> (r: Id)
        requires
            self@ + other@ <= id_max_nat(),
        ensures
            r@ == self@ + other@,
    {
        if self.lo > u128::MAX - other.lo {
            let lo = self.lo - (u128::MAX - other.lo) - 1;
            Id { hi: self.hi + other.hi + 1, lo }
        } else {
            Id { hi: self.hi + other.hi, lo: self.lo + other.lo }
        }
    }

    /// Half the underlying value, rounded down.
    pub fn half(&self) -> (r: Id)
        ensures
            r@ == self@ / 2,
    {
        let r = Id {
            hi: self.hi / 2,
            lo: self.lo / 2 + if self.hi % 2 == 1 { 0x80000000000000000000000000000000u128 } else { 0u128 },
        };
        proof {
            assert(r@ == self@ / 2) by (nonlinear_arith)
                requires
                    r.hi == self.hi / 2,
                    r.lo as nat == self.lo as nat / 2 + (self.hi as nat % 2)
                        * 0x80000000000000000000000000000000,
                    r@ == r.hi as nat * pow2_128() + r.lo as nat,
                    self@ == self.hi as nat * pow2_128() + self.lo as nat,
            ;
        }
        r
    }

    /// The midpoint between `other` and `self`:
    /// `other + (self - other) / 2`, requiring `other <= self`.
    pub fn middle(&self, other: &Id) -> (r: Id)
        requires
            other@ <= self@,
        ensures
            r@ == other@ + (self@ - other@) / 2,
    {
        let diff = self.sub_id(other);
        let half = diff.half();
        proof {
            lemma_id_bound(*self);
        }
        other.add_id(&half)
    }
}

/// The twenty big-endian bytes of an id: four from the high word, sixteen
/// from the low word.
pub open spec fn id_bytes(id: Id) -> Seq<u8> {
    seq![
        ((id.hi / 0x1000000) % 0x100) as u8,
        ((id.hi / 0x10000) % 0x100) as u8,
        ((id.hi / 0x100) % 0x100) as u8,
        (id.hi % 0x100) as u8,
        ((id.lo / 0x1000000000000000000000000000000) % 0x100) as u8,
        ((id.lo / 0x10000000000000000000000000000) % 0x100) as u8,
        ((id.lo / 0x100000000000000000000000000) % 0x100) as u8,
        ((id.lo / 0x1000000000000000000000000) % 0x100) as u8,
        ((id.lo / 0x10000000000000000000000) % 0x100) as u8,
        ((id.lo / 0x100000000000000000000) % 0x100) as u8,
        ((id.lo / 0x1000000000000000000) % 0x100) as u8,
        ((id.lo / 0x10000000000000000) % 0x100) as u8,
        ((id.lo / 0x100000000000000) % 0x100) as u8,
        ((id.lo / 0x1000000000000) % 0x100) as u8,
        ((id.lo / 0x10000000000) % 0x100) as u8,
        ((id.lo / 0x100000000) % 0x100) as u8,
        ((id.lo / 0x1000000) % 0x100) as u8,
        ((id.lo / 0x10000) % 0x100) as u8,
        ((id.lo / 0x100) % 0x100) as u8,
        (id.lo % 0x100) as u8,
    ]
}

/// The id whose twenty big-endian bytes are the given sequence.
pub open spec fn id_of_bytes(b: Seq<u8>) -> Id {
    Id {
        hi: (b[0] * 0x1000000 + b[1] * 0x10000 + b[2] * 0x100 + b[3]) as u32,
        lo: (b[4] * 0x1000000000000000000000000000000 + b[5] * 0x10000000000000000000000000000
            + b[6] * 0x100000000000000000000000000 + b[7] * 0x1000000000000000000000000 + b[8]
            * 0x10000000000000000000000 + b[9] * 0x100000000000000000000 + b[10]
            * 0x1000000000000000000 + b[11] * 0x10000000000000000 + b[12] * 0x100000000000000 + b[13]
            * 0x1000000000000 + b[14] * 0x10000000000 + b[15] * 0x100000000 + b[16] * 0x1000000 + b[17]
            * 0x10000 + b[18] * 0x100 + b[19]) as u128,
    }
}

/// Reading an id back from its own bytes yields the id.
#[verifier::rlimit(100)]
pub proof fn lemma_id_bytes_roundtrip(id: Id)
    ensures
        id_of_bytes(id_bytes(id)) == id,
{
    let h = id.hi;
    let w = id.lo;
    assert(((h / 0x1000000) % 0x100) * 0x1000000 + ((h / 0x10000) % 0x100) * 0x10000 + ((h / 0x100)
        % 0x100) * 0x100 + (h % 0x100) == h) by (bit_vector);
    assert(((w / 0x1000000000000000000000000000000) % 0x100) * 0x1000000000000000000000000000000 + (
    (w / 0x10000000000000000000000000000) % 0x100) * 0x10000000000000000000000000000 + ((w
        / 0x100000000000000000000000000) % 0x100) * 0x100000000000000000000000000 + ((w
        / 0x1000000000000000000000000) % 0x100) * 0x1000000000000000000000000 + ((w
        / 0x10000000000000000000000) % 0x100) * 0x10000000000000000000000 + ((w
        / 0x100000000000000000000) % 0x100) * 0x100000000000000000000 + ((w / 0x1000000000000000000)
        % 0x100) * 0x1000000000000000000 + ((w / 0x10000000000000000) % 0x100) * 0x10000000000000000
        + ((w / 0x100000000000000) % 0x100) * 0x100000000000000 + ((w / 0x1000000000000) % 0x100)
        * 0x1000000000000 + ((w / 0x10000000000) % 0x100) * 0x10000000000 + ((w / 0x100000000)
        % 0x100) * 0x100000000 + ((w / 0x1000000) % 0x100) * 0x1000000 + ((w / 0x10000) % 0x100)
        * 0x10000 + ((w / 0x100) % 0x100) * 0x100 + (w % 0x100) == w) by (bit_vector);
    assert(id_of_bytes(id_bytes(id)).hi == id.hi);
    assert(id_of_bytes(id_bytes(id)).lo == id.lo);
}

impl Id {
    /// The twenty big-endian bytes of the id.
    pub fn to_be_bytes(&self) -> (r: Vec<u8>)
        ensures
            r@ == id_bytes(*self),
            r@.len() == 20,
    {
        let mut r: Vec<u8> = Vec::new();
        r.push(((self.hi / 0x1000000) % 0x100) as u8);
        r.push(((self.hi / 0x10000) % 0x100) as u8);
        r.push(((self.hi / 0x100) % 0x100) as u8);
        r.push((self.hi % 0x100) as u8);
        r.push(((self.lo / 0x1000000000000000000000000000000) % 0x100) as u8);
        r.push(((self.lo / 0x10000000000000000000000000000) % 0x100) as u8);
        r.push(((self.lo / 0x100000000000000000000000000) % 0x100) as u8);
        r.push(((self.lo / 0x1000000000000000000000000) % 0x100) as u8);
        r.push(((self.lo / 0x10000000000000000000000) % 0x100) as u8);
        r.push(((self.lo / 0x100000000000000000000) % 0x100) as u8);
        r.push(((self.lo / 0x1000000000000000000) % 0x100) as u8);
        r.push(((self.lo / 0x10000000000000000) % 0x100) as u8);
        r.push(((self.lo / 0x100000000000000) % 0x100) as u8);
        r.push(((self.lo / 0x1000000000000) % 0x100) as u8);
        r.push(((self.lo / 0x10000000000) % 0x100) as u8);
        r.push(((self.lo / 0x100000000) % 0x100) as u8);
        r.push(((self.lo / 0x1000000) % 0x100) as u8);
        r.push(((self.lo / 0x10000) % 0x100) as u8);
        r.push(((self.lo / 0x100) % 0x100) as u8);
        r.push((self.lo % 0x100) as u8);
        proof {
            assert(r@ =~= id_bytes(*self));
        }
        r
    }

    /// The id read from twenty big-endian bytes.
    pub fn from_be_bytes(b: &[u8]) -> (r: Id)
        requires
            b@.len() == 20,
        ensures
            r == id_of_bytes(b@),
    {
        let hi: u32 = (b[0] as u32) * 0x1000000 + (b[1] as u32) * 0x10000 + (b[2] as u32) * 0x100
            + (b[3] as u32);
        let lo: u128 = (b[4] as u128) * 0x1000000000000000000000000000000 + (b[5] as u128)
            * 0x10000000000000000000000000000 + (b[6] as u128) * 0x100000000000000000000000000 + (
        b[7] as u128) * 0x1000000000000000000000000 + (b[8] as u128) * 0x10000000000000000000000 + (
        b[9] as u128) * 0x100000000000000000000 + (b[10] as u128) * 0x1000000000000000000 + (
        b[11] as u128) * 0x10000000000000000 + (b[12] as u128) * 0x100000000000000 + (b[13] as u128)
            * 0x1000000000000 + (b[14] as u128) * 0x10000000000 + (b[15] as u128) * 0x100000000 + (
        b[16] as u128) * 0x1000000 + (b[17] as u128) * 0x10000 + (b[18] as u128) * 0x100 + (
        b[19] as u128);
        Id { hi, lo }
    }
}

/// An inclusive range of ids.
#[derive(Clone, Copy, Debug, PartialEq, Eq, Structural)]
pub struct IdRange {
    pub start: Id,
    pub end: Id,
}

impl IdRange {
    /// A range is well formed when its start does not exceed its end.
    pub open spec fn wf(self) -> bool {
        self.start@ <= self.end@
    }

    /// Whether `id` lies within the range, inclusive on both sides.
    pub open spec fn spec_contains(self, id: Id) -> bool {
        self.start@ <= id@ <= self.end@
    }

    /// Whether two ranges share no id.
    pub open spec fn disjoint(self, other: IdRange) -> bool {
        self.end@ < other.start@ || other.end@ < self.start@
    }

    /// The full id space, `[min, max]`.
    pub fn full() -> (r: IdRange)
        ensures
            r.start@ == 0,
            r.end@ == id_max_nat(),
            r.wf(),
            forall|id: Id| r.spec_contains(id),
    {
        let r = IdRange { start: Id::min(), end: Id::max() };
        proof {
            assert forall|id: Id| r.spec_contains(id) by {
                lemma_id_bound(id);
            }
        }
        r
    }

    /// Executable containment test.
    pub fn contains(&self, id: &Id) -> (r: bool)
        ensures
            r == self.spec_contains(*id),
    {
        self.start.le(id) && id.le(&self.end)
    }
}

impl Id {
    /// A random id within the inclusive range, drawn from the thread-local
    /// generator. The draw is folded into the range: masked down to the
    /// range's width and shifted to its start, so any outcome of the
    /// generator lands inside the range.
    pub fn rand_in_inclusive_range(range: &IdRange) -> (r: Id)
        requires
            range.wf(),
        ensures
            range.spec_contains(r),
    {
        let rhi: u32 = rand::random();
        let rlo: u128 = rand::random();
        let diff = range.end.sub_id(&range.start);
        proof {
            lemma_id_bound(range.end);
        }
        if diff.hi == 0 {
            if diff.lo == u128::MAX {
                let c = Id { hi: 0, lo: rlo };
                range.start.add_id(&c)
            } else {
                let c = Id { hi: 0, lo: rlo % (diff.lo + 1) };
                range.start.add_id(&c)
            }
        } else {
            let x = diff.hi;
            let m0 = x | (x >> 1);
            let m1 = m0 | (m0 >> 2);
            let m2 = m1 | (m1 >> 4);
            let m3 = m2 | (m2 >> 8);
            let mask_hi = m3 | (m3 >> 16);
            proof {
                assert(x <= mask_hi && (rhi & mask_hi) <= mask_hi && (mask_hi >> 1) < x)
                    by (bit_vector)
                    requires
                        x > 0,
                        m0 == x | (x >> 1),
                        m1 == m0 | (m0 >> 2),
                        m2 == m1 | (m1 >> 4),
                        m3 == m2 | (m2 >> 8),
                        mask_hi == m3 | (m3 >> 16),
                ;
                assert(mask_hi >> 1 == mask_hi / 2) by (bit_vector);
            }
            let c = Id { hi: rhi & mask_hi, lo: rlo };
            proof {
                // mask_hi <= 2 * diff.hi - 1, so c is below twice the width.
                assert(c@ <= 2 * diff@ - 1) by (nonlinear_arith)
                    requires
                        c@ == c.hi as nat * pow2_128() + c.lo as nat,
                        diff@ == diff.hi as nat * pow2_128() + diff.lo as nat,
                        c.hi <= mask_hi,
                        mask_hi as nat <= 2 * diff.hi as nat - 1,
                        (c.lo as nat) < pow2_128(),
                        diff.hi >= 1,
                ;
            }
            if c.le(&diff) {
                range.start.add_id(&c)
            } else {
                let diffp1 = diff.next();
                proof {
                    lemma_id_bound(diff);
                    if diff@ == id_max_nat() {
                        lemma_id_bound(c);
                        assert(false);
                    }
                }
                let e = c.sub_id(&diffp1);
                range.start.add_id(&e)
            }
        }
    }
}

/// A network address in the compact wire form: an IPv4 or IPv6 address
/// together with a port.
#[derive(Clone, Copy, Debug, PartialEq, Eq, Hash, Structural)]
pub enum CompactAddr {
    V4 { ip: u32, port: u16 },
    V6 { ip: u128, port: u16 },
}

/// A network address paired with a confirmed node id.
#[derive(Clone, Copy, Debug, PartialEq, Eq, Structural)]
pub struct AddrId {
    pub addr: CompactAddr,
    pub id: Id,
}

impl AddrId {
    /// Pairs an address with an id.
    pub fn new(addr: CompactAddr, id: Id) -> (r: AddrId)
        ensures
            r.addr == addr,
            r.id == id,
    {
        AddrId { addr, id }
    }

    /// Returns the address.
    pub fn addr(&self) -> (r: CompactAddr)
        ensures
            r == self.addr,
    {
        self.addr
    }

    /// Returns the id.
    pub fn id(&self) -> (r: Id)
        ensures
            r == self.id,
    {
        self.id
    }
}

/// A network address paired with an id that may not yet be confirmed.
#[derive(Clone, Copy, Debug, PartialEq, Eq, Structural)]
pub struct AddrOptId {
    pub addr: CompactAddr,
    pub id: Option<Id>,
}

impl AddrOptId {
    /// Pairs an address with an optional id.
    pub fn new(addr: CompactAddr, id: Option<Id>) -> (r: AddrOptId)
        ensures
            r.addr == addr,
            r.id == id,
    {
        AddrOptId { addr, id }
    }

    /// An address with no confirmed id.
    pub fn with_addr(addr: CompactAddr) -> (r: AddrOptId)
        ensures
            r.addr == addr,
            r.id is None,
    {
        AddrOptId { addr, id: None }
    }

    /// Returns the address.
    pub fn addr(&self) -> (r: CompactAddr)
        ensures
            r == self.addr,
    {
        self.addr
    }

    /// Returns the optional id.
    pub fn id(&self) -> (r: Option<Id>)
        ensures
            r == self.id,
    {
        self.id
    }
}

} // verus!
