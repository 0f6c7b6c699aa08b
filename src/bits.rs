use vstd::prelude::*;
use vstd::utf8::*;

verus! {

/// The `n` low bits of `v`, most significant first.
pub open spec fn bits_of(v: nat, n: nat) -> Seq<bool>
    decreases n,
{
    if n == 0 {
        Seq::empty()
    } else {
        bits_of(v / 2, (n - 1) as nat).push(v % 2 == 1)
    }
}

/// The number that a sequence of bits spells, most significant first.
pub open spec fn value_of(s: Seq<bool>) -> nat
    decreases s.len(),
{
    if s.len() == 0 {
        0
    } else {
        2 * value_of(s.drop_last()) + (if s.last() { 1nat } else { 0nat })
    }
}

pub proof fn lemma_bits_of_len(v: nat, n: nat)
    ensures
        bits_of(v, n).len() == n,
    decreases n,
{
    if n > 0 {
        lemma_bits_of_len(v / 2, (n - 1) as nat);
    }
}

pub proof fn lemma_value_of_bits(v: nat, n: nat)
    requires
        v < pow2(n),
    ensures
        value_of(bits_of(v, n)) == v,
    decreases n,
{
    if n > 0 {
        lemma_pow2_unfold(n);
        lemma_bits_of_len(v / 2, (n - 1) as nat);
        lemma_value_of_bits(v / 2, (n - 1) as nat);
        assert(bits_of(v, n).drop_last() =~= bits_of(v / 2, (n - 1) as nat));
    } else {
        lemma_pow2_unfold(n);
    }
}

pub proof fn lemma_value_of_bound(s: Seq<bool>)
    ensures
        value_of(s) < pow2(s.len()),
    decreases s.len(),
{
    lemma_pow2_unfold(s.len());
    if s.len() > 0 {
        lemma_value_of_bound(s.drop_last());
    }
}

pub open spec fn pow2(n: nat) -> nat
    decreases n,
{
    if n == 0 {
        1
    } else {
        2 * pow2((n - 1) as nat)
    }
}

pub proof fn lemma_pow2_unfold(n: nat)
    ensures
        n == 0 ==> pow2(n) == 1,
        n > 0 ==> pow2(n) == 2 * pow2((n - 1) as nat),
        n == 4 ==> pow2(n) == 16,
        n == 7 ==> pow2(n) == 128,
        n == 8 ==> pow2(n) == 256,
        n == 64 ==> pow2(n) == 0x1_0000_0000_0000_0000,
{
    reveal_with_fuel(pow2, 65);
}

/// Why reading or writing a program failed.
#[derive(PartialEq, Eq, Structural, Clone, Copy, Debug)]
pub enum FlatError {
    /// The input ended before a read was complete.
    StreamExhausted,
    /// A byte array did not start on a byte boundary.
    NotByteAligned,
    /// A variable-length integer does not fit its 64-bit type.
    IntegerOverflow,
    /// A text payload is not valid UTF-8.
    InvalidUtf8,
    /// A tag does not fit in the bits allotted to it.
    Overflow { value: u8, width: u32 },
    /// A term tag outside 0..=7.
    UnknownTermTag(u8),
    /// A constant tag outside 0..=4.
    UnknownConstantTag(u8),
    /// The list of constant tags does not hold exactly one element.
    MalformedConstantTag,
    /// A builtin code that names no builtin function.
    UnknownBuiltin(u8),
    /// Text that is not an even number of hexadecimal digits.
    InvalidHex,
}

/// Reading `n` bits at `pos`: their value and the position after them.
pub open spec fn read_bits(s: Seq<bool>, pos: nat, n: nat) -> Result<(nat, nat), FlatError> {
    if pos + n <= s.len() {
        Ok((value_of(s.subrange(pos as int, (pos + n) as int)), pos + n))
    } else {
        Err(FlatError::StreamExhausted)
    }
}

/// The unsigned variable-length form: seven-bit groups, least significant group first,
/// each preceded by a bit that says whether another group follows.
pub open spec fn word_bits(v: nat) -> Seq<bool>
    decreases v,
{
    if v < 128 {
        seq![false] + bits_of(v, 7)
    } else {
        seq![true] + bits_of(v % 128, 7) + word_bits(v / 128)
    }
}

/// Reading a variable-length unsigned number at `pos`, of any size.
pub open spec fn read_word(s: Seq<bool>, pos: nat) -> Result<(nat, nat), FlatError>
    decreases s.len() - pos,
{
    if pos + 8 > s.len() {
        Err(FlatError::StreamExhausted)
    } else {
        let g = value_of(s.subrange(pos + 1int, pos + 8int));
        if !s[pos as int] {
            Ok((g, pos + 8))
        } else {
            match read_word(s, pos + 8) {
                Ok((r, p)) => Ok((g + 128 * r, p)),
                Err(e) => Err(e),
            }
        }
    }
}

/// Reading a variable-length unsigned number at `pos` that must fit in 64 bits.
pub open spec fn read_u64(s: Seq<bool>, pos: nat) -> Result<(nat, nat), FlatError> {
    match read_word(s, pos) {
        Ok((v, p)) => if v <= u64::MAX {
            Ok((v, p))
        } else {
            Err(FlatError::IntegerOverflow)
        },
        Err(e) => Err(e),
    }
}

/// Signed numbers interleave: 0, -1, 1, -2, 2, ...
pub open spec fn zigzag(i: int) -> nat {
    if i >= 0 {
        (2 * i) as nat
    } else {
        (-2 * i - 1) as nat
    }
}

pub open spec fn unzigzag(n: nat) -> int {
    if n % 2 == 0 {
        (n / 2) as int
    } else {
        -(n / 2) - 1
    }
}

pub open spec fn read_i64(s: Seq<bool>, pos: nat) -> Result<(int, nat), FlatError> {
    match read_u64(s, pos) {
        Ok((v, p)) => Ok((unzigzag(v), p)),
        Err(e) => Err(e),
    }
}

pub open spec fn read_bool(s: Seq<bool>, pos: nat) -> Result<(bool, nat), FlatError> {
    if pos < s.len() {
        Ok((s[pos as int], pos + 1))
    } else {
        Err(FlatError::StreamExhausted)
    }
}

pub proof fn lemma_value_of_push(s: Seq<bool>, b: bool)
    ensures
        value_of(s.push(b)) == 2 * value_of(s) + (if b { 1nat } else { 0nat }),
{
    assert(s.push(b).drop_last() =~= s);
}

pub proof fn lemma_word_round_trip(v: nat, pre: Seq<bool>, post: Seq<bool>)
    ensures
        read_word(pre + word_bits(v) + post, pre.len())
            == Ok::<(nat, nat), FlatError>((v, pre.len() + word_bits(v).len())),
    decreases v,
{
    let s = pre + word_bits(v) + post;
    let g = if v < 128 { v } else { v % 128 };
    lemma_pow2_unfold(7);
    lemma_bits_of_len(g, 7);
    lemma_value_of_bits(g, 7);
    assert(s.subrange(pre.len() + 1int, pre.len() + 8int) =~= bits_of(g, 7));
    if v >= 128 {
        let pre2 = pre + seq![true] + bits_of(v % 128, 7);
        assert(s =~= pre2 + word_bits(v / 128) + post);
        lemma_word_round_trip(v / 128, pre2, post);
    }
}

/// Padding up to the next byte boundary: zeros, then a one as the boundary's last bit.
pub open spec fn filler_bits(pos: nat) -> Seq<bool> {
    Seq::new((7 - pos % 8) as nat, |i: int| false).push(true)
}

/// Reading padding: zeros up to and including the first one.
pub open spec fn read_filler(s: Seq<bool>, pos: nat) -> Result<nat, FlatError>
    decreases s.len() - pos,
{
    if pos >= s.len() {
        Err(FlatError::StreamExhausted)
    } else if s[pos as int] {
        Ok(pos + 1)
    } else {
        read_filler(s, pos + 1)
    }
}

/// Bytes laid end to end, eight bits each.
pub open spec fn bytes_bits(b: Seq<u8>) -> Seq<bool>
    decreases b.len(),
{
    if b.len() == 0 {
        Seq::empty()
    } else {
        bytes_bits(b.drop_last()) + bits_of(b.last() as nat, 8)
    }
}

/// Blocks of at most 255 bytes, each after its length byte, closed by a zero length.
pub open spec fn blocks_bits(b: Seq<u8>) -> Seq<bool>
    decreases b.len(),
{
    if b.len() == 0 {
        bits_of(0, 8)
    } else {
        let k: nat = if b.len() < 255 { b.len() } else { 255 };
        bits_of(k, 8) + bytes_bits(b.take(k as int)) + blocks_bits(b.skip(k as int))
    }
}

/// A byte array: padding, then blocks.
pub open spec fn bytes_field_bits(b: Seq<u8>, pos: nat) -> Seq<bool> {
    filler_bits(pos) + blocks_bits(b)
}

/// The `k` bytes that start at bit `p`.
pub open spec fn bytes_at(s: Seq<bool>, p: nat, k: nat) -> Seq<u8> {
    Seq::new(k, |i: int| value_of(s.subrange(p + 8 * i, p + 8 * i + 8)) as u8)
}

pub open spec fn read_blocks(s: Seq<bool>, p: nat) -> Result<(Seq<u8>, nat), FlatError>
    decreases s.len() - p,
{
    if p + 8 > s.len() {
        Err(FlatError::StreamExhausted)
    } else {
        let k = value_of(s.subrange(p as int, p + 8int));
        if k == 0 {
            Ok((Seq::empty(), p + 8))
        } else if p + 8 + 8 * k > s.len() {
            Err(FlatError::StreamExhausted)
        } else {
            match read_blocks(s, p + 8 + 8 * k) {
                Ok((rest, q)) => Ok((bytes_at(s, p + 8, k) + rest, q)),
                Err(e) => Err(e),
            }
        }
    }
}

/// Reading a byte array: padding, which must end on a byte boundary, then blocks.
pub open spec fn read_bytes_field(s: Seq<bool>, pos: nat) -> Result<(Seq<u8>, nat), FlatError> {
    match read_filler(s, pos) {
        Ok(p) => if p % 8 == 0 {
            read_blocks(s, p)
        } else {
            Err(FlatError::NotByteAligned)
        },
        Err(e) => Err(e),
    }
}

/// Reading text: a byte array that must hold UTF-8.
pub open spec fn read_text(s: Seq<bool>, pos: nat) -> Result<(Seq<char>, nat), FlatError> {
    match read_bytes_field(s, pos) {
        Ok((b, p)) => if valid_utf8(b) {
            Ok((decode_utf8(b), p))
        } else {
            Err(FlatError::InvalidUtf8)
        },
        Err(e) => Err(e),
    }
}

pub open spec fn text_bits(t: Seq<char>, pos: nat) -> Seq<bool> {
    bytes_field_bits(encode_utf8(t), pos)
}

pub proof fn lemma_bytes_bits_len(b: Seq<u8>)
    ensures
        bytes_bits(b).len() == 8 * b.len(),
    decreases b.len(),
{
    if b.len() > 0 {
        lemma_bytes_bits_len(b.drop_last());
        lemma_bits_of_len(b.last() as nat, 8);
    }
}

pub proof fn lemma_bytes_bits_at(b: Seq<u8>, i: int)
    requires
        0 <= i < b.len(),
    ensures
        bytes_bits(b).subrange(8 * i, 8 * i + 8) == bits_of(b[i] as nat, 8),
    decreases b.len(),
{
    lemma_bytes_bits_len(b.drop_last());
    lemma_bits_of_len(b.last() as nat, 8);
    if i == b.len() - 1 {
        assert(bytes_bits(b).subrange(8 * i, 8 * i + 8) =~= bits_of(b[i] as nat, 8));
    } else {
        lemma_bytes_bits_at(b.drop_last(), i);
        assert(bytes_bits(b).subrange(8 * i, 8 * i + 8) =~= bytes_bits(b.drop_last()).subrange(
            8 * i,
            8 * i + 8,
        ));
    }
}

pub proof fn lemma_bytes_bits_injective(b: Seq<u8>)
    ensures
        forall|c: Seq<u8>| #[trigger] bytes_bits(c) == bytes_bits(b) ==> c == b,
    decreases b.len(),
{
    assert forall|c: Seq<u8>| #[trigger] bytes_bits(c) == bytes_bits(b) implies c == b by {
        lemma_bytes_bits_len(b);
        lemma_bytes_bits_len(c);
        assert forall|i: int| 0 <= i < b.len() implies c[i] == b[i] by {
            lemma_bytes_bits_at(b, i);
            lemma_bytes_bits_at(c, i);
            lemma_pow2_unfold(8);
            lemma_value_of_bits(b[i] as nat, 8);
            lemma_value_of_bits(c[i] as nat, 8);
        }
        assert(c =~= b);
    }
}

pub proof fn lemma_bits_of_value(g: Seq<bool>)
    ensures
        bits_of(value_of(g), g.len()) == g,
    decreases g.len(),
{
    if g.len() > 0 {
        lemma_bits_of_value(g.drop_last());
        assert(bits_of(value_of(g), g.len()) =~= g);
    } else {
        assert(bits_of(value_of(g), g.len()) =~= g);
    }
}

pub proof fn lemma_bytes_at_round_trip(c: Seq<u8>, pre: Seq<bool>, post: Seq<bool>)
    ensures
        bytes_at(pre + bytes_bits(c) + post, pre.len(), c.len()) == c,
{
    let s = pre + bytes_bits(c) + post;
    lemma_bytes_bits_len(c);
    assert forall|i: int| 0 <= i < c.len() implies #[trigger] bytes_at(s, pre.len(), c.len())[i]
        == c[i] by {
        lemma_bytes_bits_at(c, i);
        assert(s.subrange(pre.len() + 8 * i, pre.len() + 8 * i + 8) =~= bytes_bits(c).subrange(
            8 * i,
            8 * i + 8,
        ));
        lemma_pow2_unfold(8);
        lemma_value_of_bits(c[i] as nat, 8);
    }
    assert(bytes_at(s, pre.len(), c.len()) =~= c);
}

pub proof fn lemma_blocks_round_trip(b: Seq<u8>, pre: Seq<bool>, post: Seq<bool>)
    ensures
        read_blocks(pre + blocks_bits(b) + post, pre.len()) == Ok::<(Seq<u8>, nat), FlatError>(
            (b, pre.len() + blocks_bits(b).len()),
        ),
    decreases b.len(),
{
    let s = pre + blocks_bits(b) + post;
    let p = pre.len();
    lemma_pow2_unfold(8);
    if b.len() == 0 {
        lemma_bits_of_len(0, 8);
        lemma_value_of_bits(0, 8);
        assert(s.subrange(p as int, p + 8int) =~= bits_of(0, 8));
        assert(b =~= Seq::<u8>::empty());
    } else {
        let k: nat = if b.len() < 255 { b.len() } else { 255 };
        lemma_bits_of_len(k, 8);
        lemma_value_of_bits(k, 8);
        lemma_bytes_bits_len(b.take(k as int));
        assert(s.subrange(p as int, p + 8int) =~= bits_of(k, 8));
        let pre1 = pre + bits_of(k, 8);
        let post1 = blocks_bits(b.skip(k as int)) + post;
        assert(s =~= pre1 + bytes_bits(b.take(k as int)) + post1);
        lemma_bytes_at_round_trip(b.take(k as int), pre1, post1);
        let pre2 = pre1 + bytes_bits(b.take(k as int));
        assert(s =~= pre2 + blocks_bits(b.skip(k as int)) + post);
        lemma_blocks_round_trip(b.skip(k as int), pre2, post);
        assert(b.take(k as int) + b.skip(k as int) =~= b);
        assert(blocks_bits(b) == bits_of(k, 8) + bytes_bits(b.take(k as int)) + blocks_bits(
            b.skip(k as int),
        ));
        assert(pre2.len() == p + 8 + 8 * k);
        assert(value_of(s.subrange(p as int, p + 8int)) == k);
        assert(bytes_at(s, p + 8, k) == b.take(k as int));
        assert(p + 8 + 8 * k <= s.len());
        assert(k != 0);
    }
}

pub proof fn lemma_filler_round_trip(pre: Seq<bool>, post: Seq<bool>)
    ensures
        read_filler(pre + filler_bits(pre.len()) + post, pre.len()) == Ok::<nat, FlatError>(
            pre.len() + filler_bits(pre.len()).len(),
        ),
        (pre.len() + filler_bits(pre.len()).len()) % 8 == 0,
{
    let s = pre + filler_bits(pre.len()) + post;
    let z = (7 - pre.len() % 8) as nat;
    lemma_read_filler_zeros(s, pre.len(), z);
}

proof fn lemma_read_filler_zeros(s: Seq<bool>, p: nat, j: nat)
    requires
        p + j < s.len(),
        forall|i: int| p <= i < p + j ==> !s[i],
        s[(p + j) as int],
    ensures
        read_filler(s, p) == Ok::<nat, FlatError>(p + j + 1),
    decreases j,
{
    if j > 0 {
        lemma_read_filler_zeros(s, p + 1, (j - 1) as nat);
    }
}

pub proof fn lemma_bytes_field_round_trip(b: Seq<u8>, pre: Seq<bool>, post: Seq<bool>)
    ensures
        read_bytes_field(pre + bytes_field_bits(b, pre.len()) + post, pre.len()) == Ok::<
            (Seq<u8>, nat),
            FlatError,
        >((b, pre.len() + bytes_field_bits(b, pre.len()).len())),
{
    let s = pre + bytes_field_bits(b, pre.len()) + post;
    assert(s =~= pre + filler_bits(pre.len()) + (blocks_bits(b) + post));
    lemma_filler_round_trip(pre, blocks_bits(b) + post);
    let pre2 = pre + filler_bits(pre.len());
    assert(s =~= pre2 + blocks_bits(b) + post);
    lemma_blocks_round_trip(b, pre2, post);
}

pub proof fn lemma_text_round_trip(t: Seq<char>, pre: Seq<bool>, post: Seq<bool>)
    ensures
        read_text(pre + text_bits(t, pre.len()) + post, pre.len()) == Ok::<(Seq<char>, nat), FlatError>(
            (t, pre.len() + text_bits(t, pre.len()).len()),
        ),
{
    lemma_bytes_field_round_trip(encode_utf8(t), pre, post);
    encode_utf8_valid_utf8(t);
    encode_utf8_decode_utf8(t);
}

/// A growing sequence of bits.
pub struct Encoder {
    pub bits: Vec<bool>,
}

impl View for Encoder {
    type V = Seq<bool>;

    open spec fn view(&self) -> Seq<bool> {
        self.bits@
    }
}

impl Encoder {
    pub fn new() -> (r: Encoder)
        ensures
            r@ == Seq::<bool>::empty(),
    {
        Encoder { bits: Vec::new() }
    }

    /// Writes the `n` low bits of `v`, most significant first.
    pub fn bits(&mut self, n: u32, v: u64)
        requires
            n <= 64,
        ensures
            final(self)@ == old(self)@ + bits_of(v as nat, n as nat),
        decreases n,
    {
        if n > 0 {
            self.bits(n - 1, v / 2);
            self.bits.push(v % 2 == 1);
        }
        assert(bits_of(v as nat, n as nat) =~= if n == 0 {
            Seq::empty()
        } else {
            bits_of((v / 2) as nat, (n - 1) as nat).push(v % 2 == 1)
        });
    }

    pub fn bit(&mut self, b: bool)
        ensures
            final(self)@ == old(self)@.push(b),
    {
        self.bits.push(b);
    }

    /// Writes `v` in the unsigned variable-length form.
    pub fn word(&mut self, v: u64)
        ensures
            final(self)@ == old(self)@ + word_bits(v as nat),
        decreases v,
    {
        if v < 128 {
            self.bits.push(false);
            self.bits(7, v);
            assert(final(self)@ =~= old(self)@ + word_bits(v as nat));
        } else {
            self.bits.push(true);
            self.bits(7, v % 128);
            self.word(v / 128);
            assert(final(self)@ =~= old(self)@ + word_bits(v as nat));
        }
    }

    /// Writes `i` in the signed variable-length form.
    pub fn integer(&mut self, i: i64)
        ensures
            final(self)@ == old(self)@ + word_bits(zigzag(i as int)),
    {
        let z: u64 = if i >= 0 {
            (i as u64) * 2
        } else {
            ((-(i + 1)) as u64) * 2 + 1
        };
        self.word(z);
    }

    /// Pads up to the next byte boundary.
    pub fn filler(&mut self)
        ensures
            final(self)@ == old(self)@ + filler_bits(old(self)@.len()),
    {
        let z: usize = 7 - self.bits.len() % 8;
        let mut j: usize = 0;
        while j < z
            invariant
                z == 7 - old(self)@.len() % 8,
                j <= z,
                self@ == old(self)@ + Seq::new(j as nat, |i: int| false),
            decreases z - j,
        {
            self.bits.push(false);
            j = j + 1;
            assert(self@ =~= old(self)@ + Seq::new(j as nat, |i: int| false));
        }
        self.bits.push(true);
        assert(self@ =~= old(self)@ + filler_bits(old(self)@.len()));
    }

    /// Writes bytes one after another, eight bits each, with no framing.
    fn raw_bytes(&mut self, b: &[u8], start: usize, end: usize)
        requires
            start <= end <= b@.len(),
        ensures
            final(self)@ == old(self)@ + bytes_bits(b@.subrange(start as int, end as int)),
    {
        let mut j: usize = start;
        while j < end
            invariant
                start <= j <= end <= b@.len(),
                self@ == old(self)@ + bytes_bits(b@.subrange(start as int, j as int)),
            decreases end - j,
        {
            self.bits(8, b[j] as u64);
            assert(b@.subrange(start as int, j + 1int).drop_last() =~= b@.subrange(
                start as int,
                j as int,
            ));
            j = j + 1;
            assert(self@ =~= old(self)@ + bytes_bits(b@.subrange(start as int, j as int)));
        }
    }

    /// Writes a byte array: padding, then blocks of at most 255 bytes.
    pub fn bytes(&mut self, b: &[u8])
        ensures
            final(self)@ == old(self)@ + bytes_field_bits(b@, old(self)@.len()),
    {
        self.filler();
        let ghost target = old(self)@ + bytes_field_bits(b@, old(self)@.len());
        let mut start: usize = 0;
        assert(b@.skip(0) =~= b@);
        assert(self@ + blocks_bits(b@.skip(0)) =~= target);
        while start < b.len()
            invariant
                start <= b@.len(),
                self@ + blocks_bits(b@.skip(start as int)) == target,
            decreases b@.len() - start,
        {
            let k: usize = if b.len() - start < 255 {
                b.len() - start
            } else {
                255
            };
            let ghost before = self@;
            self.bits(8, k as u64);
            self.raw_bytes(b, start, start + k);
            proof {
                let rest = b@.skip(start as int);
                assert(rest.take(k as int) =~= b@.subrange(start as int, start + k));
                assert(rest.skip(k as int) =~= b@.skip(start + k));
                assert(self@ + blocks_bits(b@.skip(start + k)) =~= before + blocks_bits(rest));
            }
            start = start + k;
        }
        let ghost before = self@;
        self.bits(8, 0);
        assert(b@.skip(start as int) =~= Seq::<u8>::empty());
        assert(self@ == before + blocks_bits(b@.skip(start as int)));
    }

    /// Writes text as the byte array of its UTF-8 form.
    pub fn text(&mut self, t: &str)
        ensures
            final(self)@ == old(self)@ + text_bits(t@, old(self)@.len()),
    {
        self.bytes(t.as_bytes());
    }
}

/// A sequence of bits being read from the front.
pub struct Decoder {
    pub bits: Vec<bool>,
    pub pos: usize,
}

impl Decoder {
    pub open spec fn wf(&self) -> bool {
        self.pos <= self.bits@.len()
    }

    /// Reads `n` bits, most significant first.
    pub fn bits8(&mut self, n: u32) -> (r: Result<u8, FlatError>)
        requires
            n <= 8,
            old(self).wf(),
        ensures
            final(self).wf(),
            final(self).bits == old(self).bits,
            final(self).pos >= old(self).pos,
            match read_bits(old(self).bits@, old(self).pos as nat, n as nat) {
                Ok((v, p)) => r == Ok::<u8, FlatError>(v as u8) && final(self).pos == p && v < 256,
                Err(e) => r == Err::<u8, FlatError>(e) && final(self).pos == old(self).pos,
            },
    {
        if n as usize > self.bits.len() - self.pos {
            return Err(FlatError::StreamExhausted);
        }
        let ghost s = self.bits@;
        let ghost v0 = self.bits;
        let ghost p0 = self.pos as int;
        let mut r: u8 = 0;
        let mut i: u32 = 0;
        while i < n
            invariant
                i <= n <= 8,
                self.bits == v0,
                self.pos >= old(self).pos,
                v0@ == s,
                0 <= p0,
                s.len() <= usize::MAX,
                p0 + n <= s.len(),
                self.pos == p0 + i,
                r as nat == value_of(s.subrange(p0, p0 + i)),
                r < pow2(i as nat),
            decreases n - i,
        {
            let b = self.bits[self.pos];
            proof {
                assert(s.subrange(p0, p0 + i + 1) =~= s.subrange(p0, p0 + i).push(b));
                lemma_value_of_push(s.subrange(p0, p0 + i), b);
                lemma_pow2_unfold((i + 1) as nat);
                lemma_pow2_mono((i + 1) as nat, 8);
                lemma_pow2_unfold(8);
            }
            r = r * 2 + if b { 1u8 } else { 0u8 };
            self.pos = self.pos + 1;
            i = i + 1;
        }
        proof {
            lemma_pow2_mono(n as nat, 8);
            lemma_pow2_unfold(8);
        }
        Ok(r)
    }

    pub fn bit(&mut self) -> (r: Result<bool, FlatError>)
        requires
            old(self).wf(),
        ensures
            final(self).wf(),
            final(self).bits == old(self).bits,
            final(self).pos >= old(self).pos,
            match read_bool(old(self).bits@, old(self).pos as nat) {
                Ok((v, p)) => r == Ok::<bool, FlatError>(v) && final(self).pos == p,
                Err(e) => r == Err::<bool, FlatError>(e) && final(self).pos == old(self).pos,
            },
    {
        if self.pos >= self.bits.len() {
            return Err(FlatError::StreamExhausted);
        }
        let b = self.bits[self.pos];
        self.pos = self.pos + 1;
        Ok(b)
    }

    /// Reads a number in the unsigned variable-length form.
    pub fn word(&mut self) -> (r: Result<u64, FlatError>)
        requires
            old(self).wf(),
        ensures
            final(self).wf(),
            final(self).bits == old(self).bits,
            final(self).pos >= old(self).pos,
            match read_u64(old(self).bits@, old(self).pos as nat) {
                Ok((v, p)) => r == Ok::<u64, FlatError>(v as u64) && final(self).pos == p,
                Err(e) => r == Err::<u64, FlatError>(e),
            },
        decreases old(self).bits@.len() - old(self).pos,
    {
        let cont = self.bit()?;
        let g = self.bits8(7)?;
        proof {
            lemma_pow2_unfold(7);
        }
        if !cont {
            Ok(g as u64)
        } else {
            let r = self.word()?;
            if r > (u64::MAX - g as u64) / 128 {
                Err(FlatError::IntegerOverflow)
            } else {
                Ok(g as u64 + 128 * r)
            }
        }
    }

    /// Reads a number in the signed variable-length form.
    pub fn integer(&mut self) -> (r: Result<i64, FlatError>)
        requires
            old(self).wf(),
        ensures
            final(self).wf(),
            final(self).bits == old(self).bits,
            final(self).pos >= old(self).pos,
            match read_i64(old(self).bits@, old(self).pos as nat) {
                Ok((v, p)) => r == Ok::<i64, FlatError>(v as i64) && final(self).pos == p,
                Err(e) => r == Err::<i64, FlatError>(e),
            },
    {
        let z = self.word()?;
        if z % 2 == 0 {
            Ok((z / 2) as i64)
        } else {
            Ok(-((z / 2) as i64) - 1)
        }
    }

    /// Skips padding: zeros up to and including the first one.
    pub fn filler(&mut self) -> (r: Result<(), FlatError>)
        requires
            old(self).wf(),
        ensures
            final(self).wf(),
            final(self).bits == old(self).bits,
            final(self).pos >= old(self).pos,
            match read_filler(old(self).bits@, old(self).pos as nat) {
                Ok(p) => r is Ok && final(self).pos == p,
                Err(e) => r == Err::<(), FlatError>(e),
            },
    {
        let ghost s = self.bits@;
        while self.pos < self.bits.len()
            invariant
                self.bits == old(self).bits,
                self.pos >= old(self).pos,
                s == self.bits@,
                self.wf(),
                read_filler(s, old(self).pos as nat) == read_filler(s, self.pos as nat),
            decreases self.bits@.len() - self.pos,
        {
            let b = self.bits[self.pos];
            self.pos = self.pos + 1;
            if b {
                return Ok(());
            }
        }
        Err(FlatError::StreamExhausted)
    }

    /// Reads a byte array: padding, then blocks of bytes.
    pub fn bytes(&mut self) -> (r: Result<Vec<u8>, FlatError>)
        requires
            old(self).wf(),
        ensures
            final(self).wf(),
            final(self).bits == old(self).bits,
            final(self).pos >= old(self).pos,
            match read_bytes_field(old(self).bits@, old(self).pos as nat) {
                Ok((v, p)) => r is Ok && r->Ok_0@ == v && final(self).pos == p,
                Err(e) => r == Err::<Vec<u8>, FlatError>(e),
            },
    {
        let ghost s = self.bits@;
        self.filler()?;
        if self.pos % 8 != 0 {
            return Err(FlatError::NotByteAligned);
        }
        let ghost p0 = self.pos as nat;
        let mut out: Vec<u8> = Vec::new();
        loop
            invariant
                self.bits == old(self).bits,
                self.pos >= old(self).pos,
                s == self.bits@,
                self.wf(),
                p0 == read_filler(s, old(self).pos as nat)->Ok_0,
                read_filler(s, old(self).pos as nat) is Ok,
                p0 % 8 == 0,
                read_blocks(s, p0) == match read_blocks(s, self.pos as nat) {
                    Ok((rest, q)) => Ok((out@ + rest, q)),
                    Err(e) => Err::<(Seq<u8>, nat), FlatError>(e),
                },
            decreases self.bits@.len() - self.pos,
        {
            let ghost p1 = self.pos as nat;
            let k = self.bits8(8)?;
            proof {
                lemma_pow2_unfold(8);
            }
            if k == 0 {
                assert(out@ + Seq::<u8>::empty() =~= out@);
                return Ok(out);
            }
            if (k as usize) > (self.bits.len() - self.pos) / 8 {
                assert(p1 + 8 + 8 * k > s.len()) by (nonlinear_arith)
                    requires
                        k > (s.len() - (p1 + 8)) / 8,
                        p1 + 8 <= s.len(),
                ;
                return Err(FlatError::StreamExhausted);
            }
            let ghost out0 = out@;
            let ghost p2 = self.pos as nat;
            let mut j: u8 = 0;
            while j < k
                invariant
                    self.bits == old(self).bits,
                    s == self.bits@,
                    self.wf(),
                    j <= k,
                    p2 + 8 * k <= s.len(),
                    self.pos == p2 + 8 * j,
                    out@ == out0 + bytes_at(s, p2, j as nat),
                decreases k - j,
            {
                let v = self.bits8(8)?;
                out.push(v);
                j = j + 1;
                assert(out@ =~= out0 + bytes_at(s, p2, j as nat));
            }
            proof {
                let r = read_blocks(s, self.pos as nat);
                assert(p2 == p1 + 8);
                match r {
                    Ok((rest, q)) => {
                        assert(out0 + (bytes_at(s, p2, k as nat) + rest) =~= out@ + rest);
                    },
                    Err(e) => {},
                }
            }
        }
    }

    /// Reads text: a byte array that must hold UTF-8.
    pub fn text(&mut self) -> (r: Result<String, FlatError>)
        requires
            old(self).wf(),
        ensures
            final(self).wf(),
            final(self).bits == old(self).bits,
            final(self).pos >= old(self).pos,
            match read_text(old(self).bits@, old(self).pos as nat) {
                Ok((v, p)) => r is Ok && r->Ok_0@ == v && final(self).pos == p,
                Err(e) => r == Err::<String, FlatError>(e),
            },
    {
        let b = self.bytes()?;
        match string_from_utf8(b) {
            Some(t) => {
                proof {
                    encode_utf8_decode_utf8(t@);
                }
                Ok(t)
            },
            None => Err(FlatError::InvalidUtf8),
        }
    }
}

/// Relies on `String::from_utf8`: it accepts exactly the byte sequences that are valid
/// UTF-8, and the string it returns has those bytes.
#[verifier::external_body]
fn string_from_utf8(b: Vec<u8>) -> (r: Option<String>)
    ensures
        r is Some <==> valid_utf8(b@),
        r is Some ==> encode_utf8(r->0@) == b@,
{
    String::from_utf8(b).ok()
}

/// Spreads bytes into bits, eight each, most significant first.
pub fn unpack(b: &[u8]) -> (r: Vec<bool>)
    ensures
        r@ == bytes_bits(b@),
{
    let mut e = Encoder::new();
    e.raw_bytes(b, 0, b.len());
    assert(b@.subrange(0, b@.len() as int) =~= b@);
    e.bits
}

/// Gathers bits into bytes, eight each, most significant first.
pub fn pack(bits: Vec<bool>) -> (r: Vec<u8>)
    requires
        bits@.len() % 8 == 0,
    ensures
        bytes_bits(r@) == bits@,
{
    let ghost s = bits@;
    let mut d = Decoder { bits, pos: 0 };
    let mut out: Vec<u8> = Vec::new();
    assert(s.subrange(0, 0) =~= bytes_bits(out@));
    while d.pos < d.bits.len()
        invariant
            d.bits@ == s,
            s.len() % 8 == 0,
            d.pos % 8 == 0,
            d.wf(),
            bytes_bits(out@) == s.subrange(0, d.pos as int),
        decreases s.len() - d.pos,
    {
        let ghost p = d.pos as int;
        let v = match d.bits8(8) {
            Ok(v) => v,
            Err(_) => {
                return out;
            },
        };
        proof {
            lemma_pow2_unfold(8);
            let g = s.subrange(p, p + 8);
            lemma_bits_of_value(g);
            assert(out@.push(v).drop_last() =~= out@);
            assert(s.subrange(0, p + 8) =~= s.subrange(0, p) + g);
        }
        out.push(v);
    }
    assert(s.subrange(0, d.pos as int) =~= s);
    out
}

pub proof fn lemma_pow2_mono(a: nat, b: nat)
    requires
        a <= b,
    ensures
        pow2(a) <= pow2(b),
    decreases b,
{
    if a < b {
        lemma_pow2_unfold(b);
        lemma_pow2_mono(a, (b - 1) as nat);
    }
}

} // verus!
