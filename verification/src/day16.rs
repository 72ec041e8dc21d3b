//! Decoding the bit-stream packet format.

use vstd::arithmetic::power2::pow2;
use vstd::prelude::*;

verus! {

/// A stream of bits, consumed front to back.
pub struct BitStream {
    pub bits: Vec<bool>,
    pub pos: usize,
}

/// Value of a bit string, most significant bit first.
pub open spec fn bits_value(s: Seq<bool>) -> int
    decreases s.len(),
{
    if s.len() == 0 {
        0
    } else {
        bits_value(s.drop_last()) * 2 + (if s.last() {
            1int
        } else {
            0int
        })
    }
}

proof fn lemma_bits_value_bound(s: Seq<bool>)
    ensures
        0 <= bits_value(s) && bits_value(s) < (pow2(s.len()) as int),
    decreases s.len(),
{
    vstd::arithmetic::power2::lemma_pow2_pos(s.len());
    if s.len() > 0 {
        lemma_bits_value_bound(s.drop_last());
        vstd::arithmetic::power2::lemma_pow2_unfold(s.len());
    }
}

impl BitStream {
    pub open spec fn wf(self) -> bool {
        self.pos <= self.bits@.len()
    }

    pub open spec fn spec_remaining(self) -> int {
        self.bits@.len() - self.pos
    }

    /// The next `n` bits ahead of the cursor.
    pub open spec fn peek(self, n: int) -> Seq<bool> {
        self.bits@.subrange(self.pos as int, self.pos + n)
    }

    /// Reads the next `n` bits as an unsigned number, most significant bit
    /// first, and advances.
    pub fn pop(&mut self, n: usize) -> (r: u32)
        requires
            old(self).wf(),
            n <= 32,
            n <= old(self).spec_remaining(),
        ensures
            final(self).wf(),
            final(self).bits@ == old(self).bits@,
            final(self).pos == old(self).pos + n,
            r as int == bits_value(old(self).peek(n as int)),
    {
        let ghost s = self.peek(n as int);
        proof {
            lemma_bits_value_bound(s);
            vstd::arithmetic::power2::lemma_pow2_adds(n as nat, (32 - n) as nat);
            vstd::arithmetic::power2::lemma2_to64();
            vstd::arithmetic::power2::lemma_pow2_pos((32 - n) as nat);
            assert(pow2(n as nat) <= pow2(32))
                by {
                vstd::arithmetic::power2::lemma_pow2_adds(n as nat, (32 - n) as nat);
                vstd::arithmetic::mul::lemma_mul_increases(
                    pow2((32 - n) as nat) as int,
                    pow2(n as nat) as int,
                );
            }
        }
        let mut res: u32 = 0;
        let mut i: usize = 0;
        while i < n
            invariant
                0 <= i <= n,
                n <= 32,
                self.wf(),
                self.bits@ == old(self).bits@,
                self.pos == old(self).pos,
                n <= self.spec_remaining(),
                s == self.peek(n as int),
                res as int == bits_value(s.subrange(0, i as int)),
                res < 0x8000_0000 || i == n,
                (res as int) < (pow2(i as nat) as int),
            decreases n - i,
        {
            proof {
                assert(s.subrange(0, i + 1).drop_last() =~= s.subrange(0, i as int));
                assert(s.subrange(0, i + 1).last() == s[i as int]);
                vstd::arithmetic::power2::lemma_pow2_unfold(i as nat + 1);
                vstd::arithmetic::power2::lemma_pow2_adds(i as nat, (32 - i - 1) as nat);
                vstd::arithmetic::power2::lemma_pow2_pos((32 - i - 1) as nat);
                vstd::arithmetic::mul::lemma_mul_increases(
                    pow2((32 - i - 1) as nat) as int,
                    pow2(i as nat + 1) as int,
                );
                vstd::arithmetic::power2::lemma2_to64();
            }
            // reading the length ties the vector's size to the machine word,
            // which bounds the index sum below
            let n_bits = self.bits.len();
            proof {
                assert(self.pos + i < n_bits);
            }
            let b = self.bits[self.pos + i];
            res = res * 2 + (if b {
                1
            } else {
                0
            });
            i = i + 1;
        }
        let n_bits = self.bits.len();
        proof {
            assert(s.subrange(0, n as int) =~= s);
            assert(self.pos + n <= n_bits);
        }
        self.pos = self.pos + n;
        res
    }

    /// Bits not yet consumed.
    pub fn remaining(&self) -> (r: usize)
        requires
            self.wf(),
        ensures
            r as int == self.spec_remaining(),
    {
        self.bits.len() - self.pos
    }
}

/// A decoded packet: version, type, and either a literal number or a list of
/// sub-packets.
pub struct Packet {
    pub version: u32,
    pub ptype: u32,
    pub payload: Payload,
}

pub enum Payload {
    Literal(u64),
    Operator(Vec<Packet>),
}

/// Sum of the version numbers in the whole packet tree.
pub open spec fn sum_versions(p: Packet) -> int
    decreases p, 1int,
{
    p.version + (match p.payload {
        Payload::Literal(_) => 0,
        Payload::Operator(v) => sum_versions_list(v@, v@.len() as int),
    })
}

pub open spec fn sum_versions_list(s: Seq<Packet>, k: int) -> int
    decreases s, k, 0int,
{
    if k <= 0 || k > s.len() {
        0
    } else {
        sum_versions_list(s, k - 1) + sum_versions(s[k - 1])
    }
}

/// The value a packet denotes; `None` when an operator has no usable
/// operands (an empty list for minimum or maximum, a missing operand for a
/// comparison) or the packet type is unknown.
pub open spec fn eval(p: Packet) -> Option<int>
    decreases p, 1int,
{
    match p.payload {
        Payload::Literal(n) => if p.ptype == 4 {
            Some(n as int)
        } else {
            None
        },
        Payload::Operator(v) => eval_op(p.ptype as int, v@, v@.len() as int),
    }
}

/// Folds the operator over the first `k` operands.
pub open spec fn eval_op(op: int, s: Seq<Packet>, k: int) -> Option<int>
    decreases s, k, 0int,
{
    if k <= 0 || k > s.len() {
        if op == 0 {
            Some(0)
        } else if op == 1 {
            Some(1)
        } else {
            None
        }
    } else if op == 0 || op == 1 {
        match (eval_op(op, s, k - 1), eval(s[k - 1])) {
            (Some(acc), Some(v)) => if op == 0 {
                Some(acc + v)
            } else {
                Some(acc * v)
            },
            _ => None,
        }
    } else if op == 2 || op == 3 {
        match eval(s[k - 1]) {
            Some(v) => {
                if k == 1 {
                    Some(v)
                } else {
                    match eval_op(op, s, k - 1) {
                        Some(acc) => if op == 2 {
                            Some(if v < acc {
                                v
                            } else {
                                acc
                            })
                        } else {
                            Some(
                                if v > acc {
                                    v
                                } else {
                                    acc
                                },
                            )
                        },
                        None => None,
                    }
                }
            },
            None => None,
        }
    } else if op == 5 || op == 6 || op == 7 {
        if s.len() == 2 && k == 2 {
            match (eval(s[0]), eval(s[1])) {
                (Some(a), Some(b)) => {
                    if op == 5 {
                        Some(
                            if a > b {
                                1int
                            } else {
                                0int
                            },
                        )
                    } else if op == 6 {
                        Some(
                            if a < b {
                                1int
                            } else {
                                0int
                            },
                        )
                    } else {
                        Some(
                            if a == b {
                                1int
                            } else {
                                0int
                            },
                        )
                    }
                },
                _ => None,
            }
        } else {
            None
        }
    } else {
        None
    }
}

impl Packet {
    /// Total of all version numbers in the tree; `None` exactly when the
    /// total does not fit.
    pub fn cumulative_version(&self) -> (r: Option<u64>)
        ensures
            match r {
                Some(v) => v as int == sum_versions(*self),
                None => sum_versions(*self) > u64::MAX,
            },
        decreases *self, 1int,
    {
        match &self.payload {
            Payload::Literal(_) => Some(self.version as u64),
            Payload::Operator(pkts) => {
                let mut total: u64 = self.version as u64;
                let mut k: usize = 0;
                proof {
                    lemma_sum_versions_list_bounds(pkts@, pkts@.len() as int);
                }
                while k < pkts.len()
                    invariant
                        0 <= k <= pkts@.len(),
                        self.payload == Payload::Operator(*pkts),
                        total as int == self.version + sum_versions_list(pkts@, k as int),
                        sum_versions(*self) == self.version + sum_versions_list(
                            pkts@,
                            pkts@.len() as int,
                        ),
                        forall|j: int|
                            0 <= j <= pkts@.len() ==> 0 <= #[trigger] sum_versions_list(pkts@, j)
                                <= sum_versions_list(pkts@, pkts@.len() as int),
                        forall|j: int|
                            0 <= j < pkts@.len() ==> 0 <= #[trigger] sum_versions(pkts@[j]),
                    decreases pkts@.len() - k,
                {
                    proof {
                        assert(sum_versions_list(pkts@, k as int + 1) == sum_versions_list(
                            pkts@,
                            k as int,
                        ) + sum_versions(pkts@[k as int]));
                        assert(sum_versions_list(pkts@, k as int + 1) <= sum_versions_list(
                            pkts@,
                            pkts@.len() as int,
                        ));
                        assert(sum_versions_list(pkts@, k as int) >= 0);
                    }
                    let sub = match pkts[k].cumulative_version() {
                        Some(s) => s,
                        None => {
                            return None;
                        },
                    };
                    let nt = match total.checked_add(sub) {
                        Some(t) => t,
                        None => {
                            return None;
                        },
                    };
                    total = nt;
                    k = k + 1;
                }
                Some(total)
            },
        }
    }

    /// The value the packet denotes; `None` when the packet is malformed for
    /// its type or a value does not fit the machine word.
    pub fn value(&self) -> (r: Option<u64>)
        ensures
            match r {
                Some(v) => eval(*self) == Some(v as int),
                None => eval(*self) is None || value_blows_up(*self),
            },
        decreases *self, 1int,
    {
        match &self.payload {
            Payload::Literal(n) => {
                if self.ptype == 4 {
                    Some(*n)
                } else {
                    None
                }
            },
            Payload::Operator(pkts) => {
                let op = self.ptype;
                if op == 0 || op == 1 {
                    let mut acc: u64 = if op == 0 {
                        0
                    } else {
                        1
                    };
                    let mut k: usize = 0;
                    while k < pkts.len()
                        invariant
                            0 <= k <= pkts@.len(),
                            self.payload == Payload::Operator(*pkts),
                            op == self.ptype,
                            op == 0 || op == 1,
                            eval_op(op as int, pkts@, k as int) == Some(acc as int),
                        decreases pkts@.len() - k,
                    {
                        let v = match pkts[k].value() {
                            Some(v) => v,
                            None => {
                                proof {
                                    if eval(pkts@[k as int]) is Some {
                                        assert(value_blows_up(pkts@[k as int]));
                                        assert(value_blows_up(*self));
                                    } else {
                                        assert(eval_op(op as int, pkts@, k as int + 1) is None);
                                        lemma_eval_op_none(op as int, pkts@, k as int + 1);
                                    }
                                }
                                return None;
                            },
                        };
                        let na = if op == 0 {
                            acc.checked_add(v)
                        } else {
                            acc.checked_mul(v)
                        };
                        match na {
                            Some(a) => {
                                acc = a;
                            },
                            None => {
                                proof {
                                    assert((eval_op(op as int, pkts@, k as int + 1) matches Some(
                                        w,
                                    ) && w > u64::MAX));
                                    assert(value_blows_up(*self));
                                }
                                return None;
                            },
                        }
                        k = k + 1;
                    }
                    Some(acc)
                } else if op == 2 || op == 3 {
                    if pkts.len() == 0 {
                        return None;
                    }
                    let mut acc: u64 = match pkts[0].value() {
                        Some(v) => v,
                        None => {
                            proof {
                                if eval(pkts@[0]) is Some {
                                    assert(value_blows_up(pkts@[0]));
                                    assert(value_blows_up(*self));
                                } else {
                                    assert(eval_op(op as int, pkts@, 1) is None);
                                    lemma_eval_op_none(op as int, pkts@, 1);
                                }
                            }
                            return None;
                        },
                    };
                    let mut k: usize = 1;
                    while k < pkts.len()
                        invariant
                            1 <= k <= pkts@.len(),
                            pkts@.len() >= 1,
                            self.payload == Payload::Operator(*pkts),
                            op == self.ptype,
                            op == 2 || op == 3,
                            eval_op(op as int, pkts@, k as int) == Some(acc as int),
                        decreases pkts@.len() - k,
                    {
                        let v = match pkts[k].value() {
                            Some(v) => v,
                            None => {
                                proof {
                                    if eval(pkts@[k as int]) is Some {
                                        assert(value_blows_up(pkts@[k as int]));
                                        assert(value_blows_up(*self));
                                    } else {
                                        assert(eval_op(op as int, pkts@, k as int + 1) is None);
                                        lemma_eval_op_none(op as int, pkts@, k as int + 1);
                                    }
                                }
                                return None;
                            },
                        };
                        if op == 2 {
                            if v < acc {
                                acc = v;
                            }
                        } else {
                            if v > acc {
                                acc = v;
                            }
                        }
                        k = k + 1;
                    }
                    Some(acc)
                } else if op == 5 || op == 6 || op == 7 {
                    if pkts.len() != 2 {
                        return None;
                    }
                    let a = match pkts[0].value() {
                        Some(v) => v,
                        None => {
                            proof {
                                if eval(pkts@[0]) is Some {
                                    assert(value_blows_up(pkts@[0]));
                                    assert(value_blows_up(*self));
                                }
                            }
                            return None;
                        },
                    };
                    let b = match pkts[1].value() {
                        Some(v) => v,
                        None => {
                            proof {
                                if eval(pkts@[1]) is Some {
                                    assert(value_blows_up(pkts@[1]));
                                    assert(value_blows_up(*self));
                                }
                            }
                            return None;
                        },
                    };
                    let res: u64 = if op == 5 {
                        if a > b {
                            1
                        } else {
                            0
                        }
                    } else if op == 6 {
                        if a < b {
                            1
                        } else {
                            0
                        }
                    } else {
                        if a == b {
                            1
                        } else {
                            0
                        }
                    };
                    Some(res)
                } else {
                    None
                }
            },
        }
    }
}

/// Somewhere in the computation of the packet's value a number exceeds the
/// machine word.
pub open spec fn value_blows_up(p: Packet) -> bool
    decreases p, 1int,
{
    match p.payload {
        Payload::Literal(_) => false,
        Payload::Operator(v) => (exists|k: int|
            0 <= k <= v@.len() && ((#[trigger] eval_op(p.ptype as int, v@, k)) matches Some(w) && w
                > u64::MAX)) || (exists|j: int|
            0 <= j < v@.len() && value_blows_up(#[trigger] v@[j])),
    }
}

impl Packet {
    /// Decodes one packet from the stream: three version bits, three type
    /// bits, then the payload. `None` when the stream runs dry or a literal
    /// does not fit; the cursor always moves forward on success.
    pub fn parse(stream: &mut BitStream) -> (r: Option<Packet>)
        requires
            old(stream).wf(),
        ensures
            final(stream).wf(),
            final(stream).bits@ == old(stream).bits@,
            final(stream).pos >= old(stream).pos,
            r is Some ==> final(stream).pos > old(stream).pos,
        decreases old(stream).spec_remaining(), 3int,
    {
        if stream.remaining() < 6 {
            return None;
        }
        let version = stream.pop(3);
        let ptype = stream.pop(3);
        let payload = match Payload::parse(stream, ptype) {
            Some(p) => p,
            None => {
                return None;
            },
        };
        Some(Packet { version, ptype, payload })
    }
}

impl Payload {
    /// Decodes the payload for the given packet type: a literal number, or a
    /// length-prefixed list of sub-packets.
    pub fn parse(stream: &mut BitStream, ptype: u32) -> (r: Option<Payload>)
        requires
            old(stream).wf(),
        ensures
            final(stream).wf(),
            final(stream).bits@ == old(stream).bits@,
            final(stream).pos >= old(stream).pos,
        decreases old(stream).spec_remaining(), 2int,
    {
        if ptype == 4 {
            Self::parse_literal(stream)
        } else {
            Self::parse_operator(stream)
        }
    }

    fn parse_literal(stream: &mut BitStream) -> (r: Option<Payload>)
        requires
            old(stream).wf(),
        ensures
            final(stream).wf(),
            final(stream).bits@ == old(stream).bits@,
            final(stream).pos >= old(stream).pos,
    {
        let mut lit: u64 = 0;
        loop
            invariant
                stream.wf(),
                stream.bits@ == old(stream).bits@,
                stream.pos >= old(stream).pos,
            ensures
                stream.wf(),
                stream.bits@ == old(stream).bits@,
                stream.pos >= old(stream).pos,
            decreases stream.spec_remaining(),
        {
            if stream.remaining() < 5 {
                return None;
            }
            let digit = stream.pop(5);
            let nl = match lit.checked_mul(16) {
                Some(l) => l,
                None => {
                    return None;
                },
            };
            lit = nl + ((digit % 16) as u64);
            if digit < 16 {
                return Some(Payload::Literal(lit));
            }
        }
    }

    fn parse_operator(stream: &mut BitStream) -> (r: Option<Payload>)
        requires
            old(stream).wf(),
        ensures
            final(stream).wf(),
            final(stream).bits@ == old(stream).bits@,
            final(stream).pos >= old(stream).pos,
        decreases old(stream).spec_remaining(), 1int,
    {
        if stream.remaining() < 1 {
            return None;
        }
        let length_id = stream.pop(1);
        let mut pkts: Vec<Packet> = Vec::new();
        if length_id == 0 {
            if stream.remaining() < 15 {
                return None;
            }
            let to_be_read = stream.pop(15) as usize;
            let rem = stream.remaining();
            if rem < to_be_read {
                return None;
            }
            let target = rem - to_be_read;
            while stream.remaining() > target
                invariant
                    stream.wf(),
                    stream.bits@ == old(stream).bits@,
                    stream.pos >= old(stream).pos,
                    stream.spec_remaining() < old(stream).spec_remaining(),
                    target >= 0,
                decreases stream.spec_remaining(),
            {
                match Packet::parse(stream) {
                    Some(p) => {
                        pkts.push(p);
                    },
                    None => {
                        return None;
                    },
                }
            }
        } else {
            if stream.remaining() < 11 {
                return None;
            }
            let count = stream.pop(11);
            let mut i: u32 = 0;
            while i < count
                invariant
                    0 <= i <= count,
                    stream.wf(),
                    stream.bits@ == old(stream).bits@,
                    stream.pos >= old(stream).pos,
                    stream.spec_remaining() < old(stream).spec_remaining(),
                decreases count - i,
            {
                match Packet::parse(stream) {
                    Some(p) => {
                        pkts.push(p);
                    },
                    None => {
                        return None;
                    },
                }
                i = i + 1;
            }
        }
        Some(Payload::Operator(pkts))
    }
}

/// Sum of all version numbers of the packet decoded from the stream; `None`
/// when the stream holds no well-formed packet or the total does not fit.
pub fn part_1(stream: BitStream) -> (r: Option<u64>)
    requires
        stream.wf(),
{
    let mut stream = stream;
    match Packet::parse(&mut stream) {
        Some(p) => p.cumulative_version(),
        None => None,
    }
}

/// Value of the packet decoded from the stream; `None` when the stream holds
/// no well-formed packet, the packet is malformed for its type, or a value
/// does not fit.
pub fn part_2(stream: BitStream) -> (r: Option<u64>)
    requires
        stream.wf(),
{
    let mut stream = stream;
    match Packet::parse(&mut stream) {
        Some(p) => p.value(),
        None => None,
    }
}

/// Once a prefix of the operands fails to evaluate, the whole operator does.
proof fn lemma_eval_op_none(op: int, s: Seq<Packet>, k: int)
    requires
        1 <= k <= s.len(),
        eval_op(op, s, k) is None,
        op == 0 || op == 1 || op == 2 || op == 3,
    ensures
        eval_op(op, s, s.len() as int) is None,
    decreases s.len() - k,
{
    if k < s.len() {
        lemma_eval_op_none(op, s, k + 1);
    }
}

/// Version sums are never negative, and prefixes never exceed the whole.
proof fn lemma_sum_versions_list_bounds(s: Seq<Packet>, hi: int)
    requires
        0 <= hi <= s.len(),
    ensures
        forall|j: int|
            0 <= j <= hi ==> 0 <= #[trigger] sum_versions_list(s, j) <= sum_versions_list(s, hi),
        forall|j: int| 0 <= j < s.len() ==> 0 <= #[trigger] sum_versions(s[j]),
    decreases s, hi, 2int,
{
    assert forall|j: int| 0 <= j < s.len() implies 0 <= #[trigger] sum_versions(s[j]) by {
        lemma_sum_versions_nonneg(s[j]);
    }
    assert forall|j: int|
        0 <= j <= hi implies 0 <= #[trigger] sum_versions_list(s, j) <= sum_versions_list(
        s,
        hi,
    ) by {
        lemma_sum_versions_list_nonneg(s, j);
        lemma_sum_versions_list_mono(s, j, hi);
    }
}

proof fn lemma_sum_versions_nonneg(p: Packet)
    ensures
        sum_versions(p) >= 0,
    decreases p, 1int,
{
    match p.payload {
        Payload::Literal(_) => {},
        Payload::Operator(v) => {
            lemma_sum_versions_list_nonneg(v@, v@.len() as int);
        },
    }
}

proof fn lemma_sum_versions_list_nonneg(s: Seq<Packet>, k: int)
    ensures
        sum_versions_list(s, k) >= 0,
    decreases s, k, 0int,
{
    if !(k <= 0 || k > s.len()) {
        lemma_sum_versions_list_nonneg(s, k - 1);
        lemma_sum_versions_nonneg(s[k - 1]);
    }
}

proof fn lemma_sum_versions_list_mono(s: Seq<Packet>, k1: int, k2: int)
    requires
        0 <= k1 <= k2 <= s.len(),
    ensures
        sum_versions_list(s, k1) <= sum_versions_list(s, k2),
    decreases k2 - k1,
{
    if k1 < k2 {
        lemma_sum_versions_list_mono(s, k1, k2 - 1);
        lemma_sum_versions_nonneg(s[k2 - 1]);
    }
}

} // verus!
