//! Fletcher 16-bit checksum implementation

use vstd::prelude::*;

verus! {

/// The sum of all bytes.
pub open spec fn byte_sum(data: Seq<u8>) -> int
    decreases data.len(),
{
    if data.len() == 0 {
        0
    } else {
        byte_sum(data.drop_last()) + data.last()
    }
}

/// The sum, over every non-empty prefix of `data`, of that prefix's byte sum.
pub open spec fn prefix_sum(data: Seq<u8>) -> int
    decreases data.len(),
{
    if data.len() == 0 {
        0
    } else {
        prefix_sum(data.drop_last()) + byte_sum(data)
    }
}

/// The checksum of `data`: the byte sum in the high byte, the sum of the prefix sums in the low
/// byte, each modulo 256.
pub open spec fn checksum(data: Seq<u8>) -> int {
    (byte_sum(data) % 0x100) * 0x100 + prefix_sum(data) % 0x100
}

/// A running checksum.
pub struct Fletcher16 {
    a: u8,
    b: u8,
}

impl Fletcher16 {
    /// The running byte sum, modulo 256.
    pub closed spec fn simple_sum(&self) -> u8 {
        self.a
    }

    /// The running sum of the prefix sums, modulo 256.
    pub closed spec fn double_sum(&self) -> u8 {
        self.b
    }

    /// Whether pushing `data` one byte after the other into `before` gives this checksum.
    #[verifier::opaque]
    pub open spec fn continues(&self, before: Fletcher16, data: Seq<u8>) -> bool {
        &&& self.simple_sum() == (before.simple_sum() + byte_sum(data)) % 0x100
        &&& self.double_sum() == (before.double_sum() + data.len() * before.simple_sum()
            + prefix_sum(data)) % 0x100
    }

    /// Whether this is the checksum of all of `data`.
    pub open spec fn covers(&self, data: Seq<u8>) -> bool {
        &&& self.simple_sum() == byte_sum(data) % 0x100
        &&& self.double_sum() == prefix_sum(data) % 0x100
    }

    pub fn new() -> (chk: Self)
        ensures
            chk.simple_sum() == 0,
            chk.double_sum() == 0,
    {
        Self { a: 0, b: 0 }
    }

    pub fn push_byte(&mut self, x: u8)
        ensures
            final(self).simple_sum() == (old(self).simple_sum() + x) % 0x100,
            final(self).double_sum() == (old(self).double_sum() + final(self).simple_sum()) % 0x100,
    {
        self.a = self.a.wrapping_add(x);
        self.b = self.b.wrapping_add(self.a);
    }

    pub fn push_slice(&mut self, data: &[u8])
        ensures
            final(self).continues(*old(self), data@),
    {
        let ghost start = *self;
        let mut i: usize = 0;
        reveal(Fletcher16::continues);
        while i < data.len()
            invariant
                i <= data.len(),
                self.continues(start, data@.take(i as int)),
            decreases data.len() - i,
        {
            reveal(Fletcher16::continues);
            let ghost next = data@.take(i + 1);
            assert(next.drop_last() =~= data@.take(i as int));
            self.push_byte(data[i]);
            proof {
                let s = start.simple_sum() as int;
                assert((i + 1) * s == i * s + s) by (nonlinear_arith);
            }
            i += 1;
        }
        assert(data@.take(i as int) =~= data@);
    }

    pub fn value(&self) -> (v: u16)
        ensures
            v == self.simple_sum() * 0x100 + self.double_sum(),
    {
        let a: u8 = self.a;
        let b: u8 = self.b;
        assert(((a as u16) << 8) | b as u16 == a * 0x100 + b) by (bit_vector);
        ((a as u16) << 8) | b as u16
    }

    pub fn compute(data: &[u8]) -> (v: u16)
        ensures
            v == checksum(data@),
    {
        let mut chk = Self::new();
        chk.push_slice(data);
        reveal(Fletcher16::continues);
        chk.value()
    }
}

/// Pushing `x` and then `y` is the same as pushing both at once.
pub proof fn law_push_in_pieces(
    start: Fletcher16,
    middle: Fletcher16,
    end: Fletcher16,
    x: Seq<u8>,
    y: Seq<u8>,
)
    requires
        middle.continues(start, x),
        end.continues(middle, y),
    ensures
        end.continues(start, x + y),
{
    reveal(Fletcher16::continues);
    lemma_sums_of_concat(x, y);
    lemma_double_sum(
        start.simple_sum() as int,
        start.double_sum() as int,
        byte_sum(x),
        x.len() as int,
        y.len() as int,
        prefix_sum(x),
        prefix_sum(y),
    );
    assert((x + y).len() == x.len() + y.len());
}

/// A checksum of `x` into which `y` is pushed is the checksum of both.
pub proof fn law_push_extends_checksum(
    before: Fletcher16,
    after: Fletcher16,
    x: Seq<u8>,
    y: Seq<u8>,
)
    requires
        before.covers(x),
        after.continues(before, y),
    ensures
        after.covers(x + y),
{
    reveal(Fletcher16::continues);
    lemma_sums_of_concat(x, y);
    let (n, m) = (x.len() as int, y.len() as int);
    lemma_double_sum(0, 0, byte_sum(x), n, m, prefix_sum(x), prefix_sum(y));
}

/// The sum of the prefix sums after `n` and then `m` bytes, from the sums of both.
proof fn lemma_double_sum(a: int, b: int, s: int, n: int, m: int, px: int, py: int)
    ensures
        ((b + n * a + px) % 0x100 + m * ((a + s) % 0x100) + py) % 0x100 == (b + (n + m) * a + (px
            + m * s + py)) % 0x100,
{
    let p = m * ((a + s) % 0x100);
    let q = m * (a + s);
    vstd::arithmetic::div_mod::lemma_mul_mod_noop_right(m, a + s, 0x100);
    assert(p % 0x100 == q % 0x100);
    let before = b + n * a + px;
    assert((before % 0x100 + p + py) % 0x100 == (before + q + py) % 0x100);
    assert((n + m) * a + m * s == n * a + q) by (nonlinear_arith)
        requires
            q == m * (a + s),
    ;
}

/// Changing one byte changes the checksum.
pub proof fn law_checksum_detects_changed_byte(data: Seq<u8>, i: int, byte: u8)
    requires
        0 <= i < data.len(),
        byte != data[i],
    ensures
        checksum(data.update(i, byte)) != checksum(data),
{
    lemma_byte_sum_of_update(data, i, byte);
    let d = byte - data[i];
    assert(byte_sum(data.update(i, byte)) % 0x100 != byte_sum(data) % 0x100);
}

/// A changed byte changes the byte sum by its difference.
proof fn lemma_byte_sum_of_update(data: Seq<u8>, i: int, byte: u8)
    requires
        0 <= i < data.len(),
    ensures
        byte_sum(data.update(i, byte)) == byte_sum(data) + byte - data[i],
    decreases data.len(),
{
    if i < data.len() - 1 {
        lemma_byte_sum_of_update(data.drop_last(), i, byte);
        assert(data.update(i, byte).drop_last() =~= data.drop_last().update(i, byte));
    } else {
        assert(data.update(i, byte).drop_last() =~= data.drop_last());
    }
}

/// The sums of a concatenation, from the sums of its parts.
proof fn lemma_sums_of_concat(x: Seq<u8>, y: Seq<u8>)
    ensures
        byte_sum(x + y) == byte_sum(x) + byte_sum(y),
        prefix_sum(x + y) == prefix_sum(x) + y.len() * byte_sum(x) + prefix_sum(y),
    decreases y.len(),
{
    if y.len() == 0 {
        assert(x + y =~= x);
    } else {
        lemma_sums_of_concat(x, y.drop_last());
        assert((x + y).drop_last() =~= x + y.drop_last());
        assert((x + y).last() == y.last());
        let s = byte_sum(x);
        let n = y.len() as int;
        assert((n - 1) * s + s == n * s) by (nonlinear_arith);
    }
}

/// The sum of all bytes, each as often as its distance from `end` tells.
spec fn weighted_sum(data: Seq<u8>, end: int) -> int {
    Seq::new(data.len(), |i: int| (end - i) * data[i]).fold_left(0int, |sum: int, x: int| sum + x)
}

/// The checksum is made of two sums over all bytes, each modulo 256: the plain sum in the high
/// byte, and in the low byte the sum in which a byte counts as often as there are bytes from it on
/// to the end.
pub proof fn law_checksum_weighs_every_byte(data: Seq<u8>)
    ensures
        checksum(data) / 0x100 == data.fold_left(0int, |sum: int, byte: u8| sum + byte) % 0x100,
        checksum(data) % 0x100 == Seq::new(
            data.len(),
            |i: int| (data.len() - i) * data[i],
        ).fold_left(0int, |sum: int, x: int| sum + x) % 0x100,
        0 <= checksum(data) <= 0xffff,
{
    lemma_plain_sum(data);
    lemma_prefix_sum_weighs(data);
}

/// Pushing data adds the same two sums to a running checksum, with the bytes before it counted once
/// more for each byte.
pub proof fn law_push_weighs_every_byte(before: Fletcher16, after: Fletcher16, data: Seq<u8>)
    requires
        after.continues(before, data),
    ensures
        after.simple_sum() == (before.simple_sum() + data.fold_left(
            0int,
            |sum: int, byte: u8| sum + byte,
        )) % 0x100,
        after.double_sum() == (before.double_sum() + data.len() * before.simple_sum() + Seq::new(
            data.len(),
            |i: int| (data.len() - i) * data[i],
        ).fold_left(0int, |sum: int, x: int| sum + x)) % 0x100,
{
    reveal(Fletcher16::continues);
    lemma_plain_sum(data);
    lemma_prefix_sum_weighs(data);
}

/// A running checksum that covers data has the checksum of the data for its value.
pub proof fn law_covered_data_has_the_checksum(check: Fletcher16, data: Seq<u8>)
    requires
        check.covers(data),
    ensures
        check.simple_sum() * 0x100 + check.double_sum() == checksum(data),
{
}

/// Exchanging two different neighbours changes the checksum.
pub proof fn law_checksum_detects_swapped_neighbours(data: Seq<u8>, i: int)
    requires
        0 <= i < data.len() - 1,
        data[i] != data[i + 1],
    ensures
        checksum(data.update(i, data[i + 1]).update(i + 1, data[i])) != checksum(data),
{
    let once = data.update(i, data[i + 1]);
    let twice = once.update(i + 1, data[i]);
    let (n, d) = (data.len() - i, data[i + 1] - data[i]);
    lemma_prefix_sum_of_update(data, i, data[i + 1]);
    lemma_prefix_sum_of_update(once, i + 1, data[i]);
    assert(prefix_sum(twice) == prefix_sum(data) + n * d + (n - 1) * (0 - d));
    assert(n * d + (n - 1) * (0 - d) == d) by (nonlinear_arith);
    assert(prefix_sum(twice) % 0x100 != prefix_sum(data) % 0x100);
    let (high, low) = (byte_sum(twice) % 0x100, prefix_sum(twice) % 0x100);
    assert((high * 0x100 + low) % 0x100 == low);
}

proof fn lemma_plain_sum(data: Seq<u8>)
    ensures
        byte_sum(data) == data.fold_left(0int, |sum: int, byte: u8| sum + byte),
    decreases data.len(),
{
    if data.len() > 0 {
        lemma_plain_sum(data.drop_last());
    }
}

proof fn lemma_weighted_step(data: Seq<u8>, end: int)
    requires
        data.len() > 0,
    ensures
        weighted_sum(data, end) == weighted_sum(data.drop_last(), end) + (end - (data.len() - 1))
            * data.last(),
{
    let weighted = Seq::new(data.len(), |i: int| (end - i) * data[i]);
    let shorter = data.drop_last();
    assert(weighted.drop_last() =~= Seq::new(shorter.len(), |i: int| (end - i) * shorter[i]));
}

/// Moving the end by one counts every byte once more.
proof fn lemma_weighted_further(data: Seq<u8>, end: int)
    ensures
        weighted_sum(data, end + 1) == weighted_sum(data, end) + byte_sum(data),
    decreases data.len(),
{
    if data.len() > 0 {
        lemma_weighted_further(data.drop_last(), end);
        lemma_weighted_step(data, end);
        lemma_weighted_step(data, end + 1);
        let (w, x) = (end - (data.len() - 1), data.last() as int);
        assert((w + 1) * x == w * x + x) by (nonlinear_arith);
    }
}

proof fn lemma_prefix_sum_weighs(data: Seq<u8>)
    ensures
        prefix_sum(data) == weighted_sum(data, data.len() as int),
    decreases data.len(),
{
    if data.len() > 0 {
        let shorter = data.drop_last();
        lemma_prefix_sum_weighs(shorter);
        lemma_weighted_further(shorter, shorter.len() as int);
        lemma_weighted_step(data, data.len() as int);
        let (n, x) = (data.len() as int, data.last() as int);
        assert((n - (n - 1)) * x == x) by (nonlinear_arith);
    }
}

/// A changed byte changes the sum of the prefix sums once for each prefix that it is in.
proof fn lemma_prefix_sum_of_update(data: Seq<u8>, i: int, byte: u8)
    requires
        0 <= i < data.len(),
    ensures
        prefix_sum(data.update(i, byte)) == prefix_sum(data) + (data.len() - i) * (byte - data[i]),
    decreases data.len(),
{
    let changed = data.update(i, byte);
    lemma_byte_sum_of_update(data, i, byte);
    if i < data.len() - 1 {
        lemma_prefix_sum_of_update(data.drop_last(), i, byte);
        assert(changed.drop_last() =~= data.drop_last().update(i, byte));
        let (n, d) = (data.len() - i, byte - data[i]);
        assert((n - 1) * d + d == n * d) by (nonlinear_arith);
        assert(data.drop_last().len() - i == n - 1);
    } else {
        assert(changed.drop_last() =~= data.drop_last());
        let (n, d) = (data.len() - i, byte - data[i]);
        assert(n * d == d) by (nonlinear_arith)
            requires
                n == 1,
        ;
    }
}

} // verus!
