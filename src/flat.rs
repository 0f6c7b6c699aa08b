use vstd::prelude::*;
use vstd::utf8::*;

use crate::ast::{
    Constant, ConstantModel, DeBruijn, Name, NamedDeBruijn, Program, ProgramModel, Term, TermModel,
    Unique,
};
use crate::bits::{
    bits_of, bytes_bits, bytes_field_bits, filler_bits, lemma_bits_of_len,
    lemma_bytes_field_round_trip, lemma_filler_round_trip, lemma_pow2_unfold, lemma_text_round_trip,
    lemma_value_of_bits, lemma_word_round_trip, pack, pow2, read_bits, read_bool, read_bytes_field,
    read_filler, read_i64, read_text, read_u64, text_bits, unpack, value_of, word_bits, zigzag,
    Decoder, Encoder, FlatError,
};
use crate::builtins::DefaultFunction;

verus! {

/// A representation of variables, written one way where a variable is used (an
/// occurrence) and possibly another where a lambda binds it (a binding site).
pub trait Binder: Sized + View {
    /// The bits of an occurrence that starts at bit `pos`.
    spec fn occurrence_bits(m: Self::V, pos: nat) -> Seq<bool>;

    /// Reading an occurrence at `pos`: its model and the position after it.
    spec fn read_occurrence(s: Seq<bool>, pos: nat) -> Result<(Self::V, nat), FlatError>;

    /// The bits of a binding site that starts at bit `pos`.
    spec fn position_bits(m: Self::V, pos: nat) -> Seq<bool>;

    /// Reading a binding site at `pos`.
    spec fn read_position(s: Seq<bool>, pos: nat) -> Result<(Self::V, nat), FlatError>;

    /// What a binding site holds once written and read back.
    spec fn position_form(m: Self::V) -> Self::V;

    /// The models that values of this type have.
    spec fn valid(m: Self::V) -> bool;

    proof fn lemma_valid(b: &Self)
        ensures
            Self::valid(b@),
    ;

    proof fn lemma_occurrence_round_trip(m: Self::V, pre: Seq<bool>, post: Seq<bool>)
        requires
            Self::valid(m),
        ensures
            Self::read_occurrence(pre + Self::occurrence_bits(m, pre.len()) + post, pre.len())
                == Ok::<(Self::V, nat), FlatError>(
                (m, pre.len() + Self::occurrence_bits(m, pre.len()).len()),
            ),
    ;

    proof fn lemma_position_round_trip(m: Self::V, pre: Seq<bool>, post: Seq<bool>)
        requires
            Self::valid(m),
        ensures
            Self::read_position(pre + Self::position_bits(m, pre.len()) + post, pre.len())
                == Ok::<(Self::V, nat), FlatError>(
                (Self::position_form(m), pre.len() + Self::position_bits(m, pre.len()).len()),
            ),
            Self::valid(Self::position_form(m)),
    ;

    /// Writes an occurrence.
    fn encode(&self, e: &mut Encoder) -> (r: Result<(), FlatError>)
        ensures
            r is Ok,
            final(e)@ == old(e)@ + Self::occurrence_bits(self@, old(e)@.len()),
    ;

    /// Reads an occurrence.
    fn decode(d: &mut Decoder) -> (r: Result<Self, FlatError>)
        requires
            old(d).wf(),
        ensures
            final(d).wf(),
            final(d).bits == old(d).bits,
            final(d).pos >= old(d).pos,
            match Self::read_occurrence(old(d).bits@, old(d).pos as nat) {
                Ok((m, p)) => r is Ok && r->Ok_0@ == m && final(d).pos == p,
                Err(e) => r == Err::<Self, FlatError>(e),
            },
    ;

    /// Writes a binding site.
    fn binder_encode(&self, e: &mut Encoder) -> (r: Result<(), FlatError>)
        ensures
            r is Ok,
            final(e)@ == old(e)@ + Self::position_bits(self@, old(e)@.len()),
    ;

    /// Reads a binding site.
    fn binder_decode(d: &mut Decoder) -> (r: Result<Self, FlatError>)
        requires
            old(d).wf(),
        ensures
            final(d).wf(),
            final(d).bits == old(d).bits,
            final(d).pos >= old(d).pos,
            match Self::read_position(old(d).bits@, old(d).pos as nat) {
                Ok((m, p)) => r is Ok && r->Ok_0@ == m && final(d).pos == p,
                Err(e) => r == Err::<Self, FlatError>(e),
            },
    ;
}

proof fn lemma_i64_round_trip(i: int, pre: Seq<bool>, post: Seq<bool>)
    requires
        i64::MIN <= i <= i64::MAX,
    ensures
        read_i64(pre + word_bits(zigzag(i)) + post, pre.len()) == Ok::<(int, nat), FlatError>(
            (i, pre.len() + word_bits(zigzag(i)).len()),
        ),
{
    lemma_word_round_trip(zigzag(i), pre, post);
}

proof fn lemma_u64_round_trip(v: nat, pre: Seq<bool>, post: Seq<bool>)
    requires
        v <= u64::MAX,
    ensures
        read_u64(pre + word_bits(v) + post, pre.len()) == Ok::<(nat, nat), FlatError>(
            (v, pre.len() + word_bits(v).len()),
        ),
{
    lemma_word_round_trip(v, pre, post);
}

impl Binder for Name {
    open spec fn occurrence_bits(m: (Seq<char>, int), pos: nat) -> Seq<bool> {
        text_bits(m.0, pos) + word_bits(zigzag(m.1))
    }

    open spec fn read_occurrence(s: Seq<bool>, pos: nat) -> Result<((Seq<char>, int), nat), FlatError> {
        match read_text(s, pos) {
            Ok((t, p)) => match read_i64(s, p) {
                Ok((u, q)) => Ok(((t, u), q)),
                Err(e) => Err(e),
            },
            Err(e) => Err(e),
        }
    }

    open spec fn position_bits(m: (Seq<char>, int), pos: nat) -> Seq<bool> {
        Self::occurrence_bits(m, pos)
    }

    open spec fn read_position(s: Seq<bool>, pos: nat) -> Result<((Seq<char>, int), nat), FlatError> {
        Self::read_occurrence(s, pos)
    }

    open spec fn position_form(m: (Seq<char>, int)) -> (Seq<char>, int) {
        m
    }

    open spec fn valid(m: (Seq<char>, int)) -> bool {
        i64::MIN <= m.1 <= i64::MAX
    }

    proof fn lemma_valid(b: &Self) {
    }

    proof fn lemma_occurrence_round_trip(m: (Seq<char>, int), pre: Seq<bool>, post: Seq<bool>) {
        let tb = text_bits(m.0, pre.len());
        let wb = word_bits(zigzag(m.1));
        assert(pre + Self::occurrence_bits(m, pre.len()) + post =~= pre + tb + (wb + post));
        lemma_text_round_trip(m.0, pre, wb + post);
        assert(pre + Self::occurrence_bits(m, pre.len()) + post =~= (pre + tb) + wb + post);
        lemma_i64_round_trip(m.1, pre + tb, post);
    }

    proof fn lemma_position_round_trip(m: (Seq<char>, int), pre: Seq<bool>, post: Seq<bool>) {
        Self::lemma_occurrence_round_trip(m, pre, post);
    }

    fn encode(&self, e: &mut Encoder) -> (r: Result<(), FlatError>) {
        e.text(self.text.as_str());
        e.integer(self.unique.value);
        assert(final(e)@ =~= old(e)@ + Self::occurrence_bits(self@, old(e)@.len()));
        Ok(())
    }

    fn decode(d: &mut Decoder) -> (r: Result<Self, FlatError>) {
        let text = d.text()?;
        let value = d.integer()?;
        Ok(Name { text, unique: Unique::new(value) })
    }

    fn binder_encode(&self, e: &mut Encoder) -> (r: Result<(), FlatError>) {
        self.encode(e)
    }

    fn binder_decode(d: &mut Decoder) -> (r: Result<Self, FlatError>) {
        Name::decode(d)
    }
}

impl Binder for DeBruijn {
    open spec fn occurrence_bits(m: nat, pos: nat) -> Seq<bool> {
        word_bits(m)
    }

    open spec fn read_occurrence(s: Seq<bool>, pos: nat) -> Result<(nat, nat), FlatError> {
        read_u64(s, pos)
    }

    /// A binding site takes no bits: its place in the tree says which it is.
    open spec fn position_bits(m: nat, pos: nat) -> Seq<bool> {
        Seq::empty()
    }

    open spec fn read_position(s: Seq<bool>, pos: nat) -> Result<(nat, nat), FlatError> {
        Ok((0, pos))
    }

    open spec fn position_form(m: nat) -> nat {
        0
    }

    open spec fn valid(m: nat) -> bool {
        m <= u64::MAX
    }

    proof fn lemma_valid(b: &Self) {
    }

    proof fn lemma_occurrence_round_trip(m: nat, pre: Seq<bool>, post: Seq<bool>) {
        lemma_u64_round_trip(m, pre, post);
    }

    proof fn lemma_position_round_trip(m: nat, pre: Seq<bool>, post: Seq<bool>) {
    }

    fn encode(&self, e: &mut Encoder) -> (r: Result<(), FlatError>) {
        e.word(self.index);
        Ok(())
    }

    fn decode(d: &mut Decoder) -> (r: Result<Self, FlatError>) {
        let index = d.word()?;
        Ok(DeBruijn::new(index))
    }

    fn binder_encode(&self, e: &mut Encoder) -> (r: Result<(), FlatError>) {
        assert(final(e)@ =~= old(e)@ + Self::position_bits(self@, old(e)@.len()));
        Ok(())
    }

    fn binder_decode(d: &mut Decoder) -> (r: Result<Self, FlatError>) {
        Ok(DeBruijn::new(0))
    }
}

impl Binder for NamedDeBruijn {
    open spec fn occurrence_bits(m: (Seq<char>, nat), pos: nat) -> Seq<bool> {
        text_bits(m.0, pos) + word_bits(m.1)
    }

    open spec fn read_occurrence(s: Seq<bool>, pos: nat) -> Result<((Seq<char>, nat), nat), FlatError> {
        match read_text(s, pos) {
            Ok((t, p)) => match read_u64(s, p) {
                Ok((i, q)) => Ok(((t, i), q)),
                Err(e) => Err(e),
            },
            Err(e) => Err(e),
        }
    }

    /// A binding site keeps only its text.
    open spec fn position_bits(m: (Seq<char>, nat), pos: nat) -> Seq<bool> {
        text_bits(m.0, pos)
    }

    open spec fn read_position(s: Seq<bool>, pos: nat) -> Result<((Seq<char>, nat), nat), FlatError> {
        match read_text(s, pos) {
            Ok((t, p)) => Ok(((t, 0), p)),
            Err(e) => Err(e),
        }
    }

    open spec fn position_form(m: (Seq<char>, nat)) -> (Seq<char>, nat) {
        (m.0, 0)
    }

    open spec fn valid(m: (Seq<char>, nat)) -> bool {
        m.1 <= u64::MAX
    }

    proof fn lemma_valid(b: &Self) {
    }

    proof fn lemma_occurrence_round_trip(m: (Seq<char>, nat), pre: Seq<bool>, post: Seq<bool>) {
        let tb = text_bits(m.0, pre.len());
        let wb = word_bits(m.1);
        assert(pre + Self::occurrence_bits(m, pre.len()) + post =~= pre + tb + (wb + post));
        lemma_text_round_trip(m.0, pre, wb + post);
        assert(pre + Self::occurrence_bits(m, pre.len()) + post =~= (pre + tb) + wb + post);
        lemma_u64_round_trip(m.1, pre + tb, post);
    }

    proof fn lemma_position_round_trip(m: (Seq<char>, nat), pre: Seq<bool>, post: Seq<bool>) {
        lemma_text_round_trip(m.0, pre, post);
    }

    fn encode(&self, e: &mut Encoder) -> (r: Result<(), FlatError>) {
        e.text(self.text.as_str());
        e.word(self.index.index);
        assert(final(e)@ =~= old(e)@ + Self::occurrence_bits(self@, old(e)@.len()));
        Ok(())
    }

    fn decode(d: &mut Decoder) -> (r: Result<Self, FlatError>) {
        let text = d.text()?;
        let index = d.word()?;
        Ok(NamedDeBruijn { text, index: DeBruijn::new(index) })
    }

    fn binder_encode(&self, e: &mut Encoder) -> (r: Result<(), FlatError>) {
        e.text(self.text.as_str());
        Ok(())
    }

    fn binder_decode(d: &mut Decoder) -> (r: Result<Self, FlatError>) {
        let text = d.text()?;
        Ok(NamedDeBruijn { text, index: DeBruijn::new(0) })
    }
}

/// Width in bits of a builtin function's code.
pub const BUILTIN_TAG_WIDTH: u32 = 7;

/// Width in bits of a constant's kind tag.
pub const CONST_TAG_WIDTH: u32 = 4;

/// Width in bits of a term's variant tag.
pub const TERM_TAG_WIDTH: u32 = 4;

/// Writes `byte` in `num_bits` bits, or fails, writing nothing, when it does not fit.
pub fn safe_encode_bits(num_bits: u32, byte: u8, e: &mut Encoder) -> (r: Result<(), FlatError>)
    requires
        num_bits <= 8,
    ensures
        (byte as nat) < pow2(num_bits as nat) ==> r is Ok && final(e)@ == old(e)@ + bits_of(
            byte as nat,
            num_bits as nat,
        ),
        (byte as nat) >= pow2(num_bits as nat) ==> r == Err::<(), FlatError>(
            FlatError::Overflow { value: byte, width: num_bits },
        ) && final(e)@ == old(e)@,
{
    let mut limit: u32 = 1;
    let mut i: u32 = 0;
    while i < num_bits
        invariant
            i <= num_bits <= 8,
            limit as nat == pow2(i as nat),
            limit <= 256,
        decreases num_bits - i,
    {
        proof {
            lemma_pow2_unfold((i + 1) as nat);
            crate::bits::lemma_pow2_mono((i + 1) as nat, 8);
            lemma_pow2_unfold(8);
        }
        limit = limit * 2;
        i = i + 1;
    }
    if byte as u32 >= limit {
        Err(FlatError::Overflow { value: byte, width: num_bits })
    } else {
        e.bits(num_bits, byte as u64);
        Ok(())
    }
}

/// Writes a term's variant tag in four bits.
pub fn encode_term_tag(tag: u8, e: &mut Encoder) -> (r: Result<(), FlatError>)
    ensures
        tag < 16 ==> r is Ok && final(e)@ == old(e)@ + bits_of(tag as nat, 4),
        tag >= 16 ==> r == Err::<(), FlatError>(FlatError::Overflow { value: tag, width: 4 })
            && final(e)@ == old(e)@,
{
    proof {
        lemma_pow2_unfold(4);
    }
    safe_encode_bits(TERM_TAG_WIDTH, tag, e)
}

/// Reads a term's variant tag: four bits.
pub fn decode_term_tag(d: &mut Decoder) -> (r: Result<u8, FlatError>)
    requires
        old(d).wf(),
    ensures
        final(d).wf(),
        final(d).bits == old(d).bits,
        final(d).pos >= old(d).pos,
        match read_bits(old(d).bits@, old(d).pos as nat, 4) {
            Ok((v, p)) => r == Ok::<u8, FlatError>(v as u8) && final(d).pos == p && v < 16,
            Err(e) => r == Err::<u8, FlatError>(e),
        },
{
    let r = d.bits8(TERM_TAG_WIDTH);
    proof {
        lemma_value_of_bound_at(old(d).bits@, old(d).pos as nat, 4);
        lemma_pow2_unfold(4);
    }
    r
}

proof fn lemma_value_of_bound_at(s: Seq<bool>, pos: nat, n: nat)
    ensures
        read_bits(s, pos, n) matches Ok((v, p)) ==> v < pow2(n),
{
    if pos + n <= s.len() {
        crate::bits::lemma_value_of_bound(s.subrange(pos as int, (pos + n) as int));
    }
}

/// Writes a constant's kind tag in four bits.
pub fn encode_constant_tag(tag: u8, e: &mut Encoder) -> (r: Result<(), FlatError>)
    ensures
        tag < 16 ==> r is Ok && final(e)@ == old(e)@ + bits_of(tag as nat, 4),
        tag >= 16 ==> r == Err::<(), FlatError>(FlatError::Overflow { value: tag, width: 4 })
            && final(e)@ == old(e)@,
{
    proof {
        lemma_pow2_unfold(4);
    }
    safe_encode_bits(CONST_TAG_WIDTH, tag, e)
}

/// Reads a constant's kind tag: four bits.
pub fn decode_constant_tag(d: &mut Decoder) -> (r: Result<u8, FlatError>)
    requires
        old(d).wf(),
    ensures
        final(d).wf(),
        final(d).bits == old(d).bits,
        final(d).pos >= old(d).pos,
        match read_bits(old(d).bits@, old(d).pos as nat, 4) {
            Ok((v, p)) => r == Ok::<u8, FlatError>(v as u8) && final(d).pos == p && v < 16,
            Err(e) => r == Err::<u8, FlatError>(e),
        },
{
    let r = d.bits8(CONST_TAG_WIDTH);
    proof {
        lemma_value_of_bound_at(old(d).bits@, old(d).pos as nat, 4);
        lemma_pow2_unfold(4);
    }
    r
}

/// A constant's kind written as a list of one tag: a one, the tag, a zero.
pub open spec fn tag_list_bits(tag: nat) -> Seq<bool> {
    seq![true] + bits_of(tag, 4) + seq![false]
}

/// Reading a list of four-bit tags: each after a one, the list closed by a zero.
pub open spec fn read_tag_list(s: Seq<bool>, pos: nat) -> Result<(Seq<u8>, nat), FlatError>
    decreases s.len() - pos,
{
    if pos >= s.len() {
        Err(FlatError::StreamExhausted)
    } else if !s[pos as int] {
        Ok((Seq::empty(), pos + 1))
    } else if pos + 5 > s.len() {
        Err(FlatError::StreamExhausted)
    } else {
        let v = value_of(s.subrange(pos + 1int, pos + 5int)) as u8;
        match read_tag_list(s, pos + 5) {
            Ok((l, q)) => Ok((seq![v] + l, q)),
            Err(e) => Err(e),
        }
    }
}

/// Reading a constant's kind: a list that must hold exactly one tag.
pub open spec fn read_constant_tag(s: Seq<bool>, pos: nat) -> Result<(u8, nat), FlatError> {
    match read_tag_list(s, pos) {
        Ok((l, p)) => if l.len() == 1 {
            Ok((l[0], p))
        } else {
            Err(FlatError::MalformedConstantTag)
        },
        Err(e) => Err(e),
    }
}

/// Writes a constant's kind as a list of one tag, or fails, writing nothing, when
/// the tag does not fit in four bits.
pub fn encode_constant(tag: u8, e: &mut Encoder) -> (r: Result<(), FlatError>)
    ensures
        tag < 16 ==> r is Ok && final(e)@ == old(e)@ + tag_list_bits(tag as nat),
        tag >= 16 ==> r == Err::<(), FlatError>(FlatError::Overflow { value: tag, width: 4 })
            && final(e)@ == old(e)@,
{
    if tag >= 16 {
        return Err(FlatError::Overflow { value: tag, width: CONST_TAG_WIDTH });
    }
    e.bit(true);
    let r = encode_constant_tag(tag, e);
    e.bit(false);
    assert(final(e)@ =~= old(e)@ + tag_list_bits(tag as nat));
    r
}

/// Reads a constant's kind: a list of tags that must hold exactly one.
pub fn decode_constant(d: &mut Decoder) -> (r: Result<u8, FlatError>)
    requires
        old(d).wf(),
    ensures
        final(d).wf(),
        final(d).bits == old(d).bits,
        final(d).pos >= old(d).pos,
        match read_constant_tag(old(d).bits@, old(d).pos as nat) {
            Ok((v, p)) => r == Ok::<u8, FlatError>(v) && final(d).pos == p,
            Err(e) => r == Err::<u8, FlatError>(e),
        },
{
    let ghost s = d.bits@;
    let ghost p0 = d.pos as nat;
    let mut tags: Vec<u8> = Vec::new();
    loop
        invariant
            d.wf(),
            d.bits == old(d).bits,
            s == d.bits@,
            d.pos >= p0,
            p0 == old(d).pos,
            read_tag_list(s, p0) == match read_tag_list(s, d.pos as nat) {
                Ok((l, q)) => Ok((tags@ + l, q)),
                Err(e) => Err::<(Seq<u8>, nat), FlatError>(e),
            },
        decreases s.len() - d.pos,
    {
        let ghost pb = d.pos as nat;
        let more = d.bit()?;
        if !more {
            assert(tags@ + Seq::<u8>::empty() =~= tags@);
            assert(read_tag_list(s, pb) == Ok::<(Seq<u8>, nat), FlatError>((Seq::empty(), pb + 1)));
            if tags.len() != 1 {
                return Err(FlatError::MalformedConstantTag);
            } else {
                return Ok(tags[0]);
            }
        }
        if d.bits.len() - d.pos < 4 {
            return Err(FlatError::StreamExhausted);
        }
        let t = decode_constant_tag(d)?;
        proof {
            match read_tag_list(s, d.pos as nat) {
                Ok((l, q)) => {
                    assert(tags@ + (seq![t] + l) =~= tags@.push(t) + l);
                },
                Err(e) => {},
            }
        }
        tags.push(t);
    }
}

/// Relies on `char::encode_utf8`: the bytes it writes are the character's UTF-8 form.
#[verifier::external_body]
fn char_utf8(c: char) -> (r: Vec<u8>)
    ensures
        r@ == encode_utf8(seq![c]),
{
    let mut buf = [0u8; 4];
    c.encode_utf8(&mut buf).as_bytes().to_vec()
}

/// The bits of a constant that starts at bit `pos`. A character has no kind tag of
/// its own: it is written as the byte array of its UTF-8 form alone.
pub open spec fn constant_bits(c: ConstantModel, pos: nat) -> Seq<bool> {
    match c {
        ConstantModel::Integer(i) => tag_list_bits(0) + word_bits(zigzag(i)),
        ConstantModel::ByteString(b) => tag_list_bits(1) + bytes_field_bits(b, pos + 6),
        ConstantModel::String(t) => tag_list_bits(2) + text_bits(t, pos + 6),
        ConstantModel::Char(ch) => bytes_field_bits(encode_utf8(seq![ch]), pos),
        ConstantModel::Unit => tag_list_bits(3),
        ConstantModel::Bool(b) => tag_list_bits(4) + seq![b],
    }
}

/// Reading a constant at `pos`.
pub open spec fn read_constant(s: Seq<bool>, pos: nat) -> Result<(ConstantModel, nat), FlatError> {
    match read_constant_tag(s, pos) {
        Ok((t, p)) => if t == 0 {
            match read_i64(s, p) {
                Ok((i, q)) => Ok((ConstantModel::Integer(i), q)),
                Err(e) => Err(e),
            }
        } else if t == 1 {
            match read_bytes_field(s, p) {
                Ok((b, q)) => Ok((ConstantModel::ByteString(b), q)),
                Err(e) => Err(e),
            }
        } else if t == 2 {
            match read_text(s, p) {
                Ok((x, q)) => Ok((ConstantModel::String(x), q)),
                Err(e) => Err(e),
            }
        } else if t == 3 {
            Ok((ConstantModel::Unit, p))
        } else if t == 4 {
            match read_bool(s, p) {
                Ok((b, q)) => Ok((ConstantModel::Bool(b), q)),
                Err(e) => Err(e),
            }
        } else {
            Err(FlatError::UnknownConstantTag(t))
        },
        Err(e) => Err(e),
    }
}

/// The constants that read back as themselves: all but characters, which have no tag.
pub open spec fn constant_round_trips(c: ConstantModel) -> bool {
    match c {
        ConstantModel::Integer(i) => i64::MIN <= i <= i64::MAX,
        ConstantModel::Char(_) => false,
        _ => true,
    }
}

impl Constant {
    /// Writes a constant: its kind as a list of one tag, then its value.
    pub fn encode(&self, e: &mut Encoder) -> (r: Result<(), FlatError>)
        ensures
            r is Ok,
            final(e)@ == old(e)@ + constant_bits(self@, old(e)@.len()),
    {
        let ghost s0 = e@;
        match self {
            Constant::Integer(i) => {
                encode_constant(0, e)?;
                e.integer(*i);
            },
            Constant::ByteString(b) => {
                encode_constant(1, e)?;
                e.bytes(b.as_slice());
            },
            Constant::String(t) => {
                encode_constant(2, e)?;
                e.text(t.as_str());
            },
            Constant::Char(c) => {
                let b = char_utf8(*c);
                e.bytes(b.as_slice());
            },
            Constant::Unit => {
                encode_constant(3, e)?;
            },
            Constant::Bool(b) => {
                encode_constant(4, e)?;
                e.bit(*b);
            },
        }
        proof {
            lemma_bits_of_len(0, 4);
            lemma_bits_of_len(1, 4);
            lemma_bits_of_len(2, 4);
            lemma_bits_of_len(3, 4);
            lemma_bits_of_len(4, 4);
        }
        assert(e@ =~= s0 + constant_bits(self@, s0.len()));
        Ok(())
    }

    /// Reads a constant.
    pub fn decode(d: &mut Decoder) -> (r: Result<Constant, FlatError>)
        requires
            old(d).wf(),
        ensures
            final(d).wf(),
            final(d).bits == old(d).bits,
            final(d).pos >= old(d).pos,
            match read_constant(old(d).bits@, old(d).pos as nat) {
                Ok((c, p)) => r is Ok && r->Ok_0@ == c && final(d).pos == p,
                Err(e) => r == Err::<Constant, FlatError>(e),
            },
    {
        let t = decode_constant(d)?;
        if t == 0 {
            Ok(Constant::Integer(d.integer()?))
        } else if t == 1 {
            Ok(Constant::ByteString(d.bytes()?))
        } else if t == 2 {
            Ok(Constant::String(d.text()?))
        } else if t == 3 {
            Ok(Constant::Unit)
        } else if t == 4 {
            Ok(Constant::Bool(d.bit()?))
        } else {
            Err(FlatError::UnknownConstantTag(t))
        }
    }
}

/// Reading a builtin function's seven-bit code at `pos`.
pub open spec fn read_builtin(s: Seq<bool>, pos: nat) -> Result<(DefaultFunction, nat), FlatError> {
    match read_bits(s, pos, 7) {
        Ok((v, p)) => match DefaultFunction::with_code(v as u8) {
            Some(f) => Ok((f, p)),
            None => Err(FlatError::UnknownBuiltin(v as u8)),
        },
        Err(e) => Err(e),
    }
}

impl DefaultFunction {
    /// Writes the function's code in seven bits.
    pub fn encode(&self, e: &mut Encoder) -> (r: Result<(), FlatError>)
        ensures
            r is Ok,
            final(e)@ == old(e)@ + bits_of(self.code() as nat, 7),
    {
        proof {
            crate::builtins::lemma_code_round_trip(*self, 0);
            lemma_pow2_unfold(7);
        }
        safe_encode_bits(BUILTIN_TAG_WIDTH, self.to_code(), e)
    }

    /// Reads a seven-bit code, which must name a builtin function.
    pub fn decode(d: &mut Decoder) -> (r: Result<DefaultFunction, FlatError>)
        requires
            old(d).wf(),
        ensures
            final(d).wf(),
            final(d).bits == old(d).bits,
            final(d).pos >= old(d).pos,
            match read_builtin(old(d).bits@, old(d).pos as nat) {
                Ok((f, p)) => r == Ok::<DefaultFunction, FlatError>(f) && final(d).pos == p,
                Err(e) => r == Err::<DefaultFunction, FlatError>(e),
            },
    {
        let v = d.bits8(BUILTIN_TAG_WIDTH)?;
        match DefaultFunction::from_code(v) {
            Some(f) => Ok(f),
            None => Err(FlatError::UnknownBuiltin(v)),
        }
    }
}

/// The bits of a term that starts at bit `pos`: a four-bit variant tag, then the
/// fields in order.
pub open spec fn term_bits<T: Binder>(t: TermModel<T::V>, pos: nat) -> Seq<bool>
    decreases t,
{
    match t {
        TermModel::Var(v) => bits_of(0, 4) + T::occurrence_bits(v, pos + 4),
        TermModel::Delay(b) => bits_of(1, 4) + term_bits::<T>(*b, pos + 4),
        TermModel::Lambda { parameter_name, body } => {
            let pb = T::position_bits(parameter_name, pos + 4);
            bits_of(2, 4) + pb + term_bits::<T>(*body, pos + 4 + pb.len())
        },
        TermModel::Apply { function, argument } => {
            let fb = term_bits::<T>(*function, pos + 4);
            bits_of(3, 4) + fb + term_bits::<T>(*argument, pos + 4 + fb.len())
        },
        TermModel::Constant(c) => bits_of(4, 4) + constant_bits(c, pos + 4),
        TermModel::Force(b) => bits_of(5, 4) + term_bits::<T>(*b, pos + 4),
        TermModel::Error => bits_of(6, 4),
        TermModel::Builtin(f) => bits_of(7, 4) + bits_of(f.code() as nat, 7),
    }
}

/// Reading a term at `pos`: its model and the position after it. A field that
/// ends outside `pos..s.len()` cannot come from the readers above; the guard
/// only keeps the definition well founded.
#[verifier::opaque]
pub open spec fn read_term<T: Binder>(s: Seq<bool>, pos: nat) -> Result<(TermModel<T::V>, nat), FlatError>
    decreases s.len() - pos,
{
    if pos + 4 > s.len() {
        Err(FlatError::StreamExhausted)
    } else {
        let tag = value_of(s.subrange(pos as int, pos + 4int));
        let p = pos + 4;
        if tag == 0 {
            match T::read_occurrence(s, p) {
                Ok((v, q)) => Ok((TermModel::Var(v), q)),
                Err(e) => Err(e),
            }
        } else if tag == 1 {
            match read_term::<T>(s, p) {
                Ok((b, q)) => Ok((TermModel::Delay(Box::new(b)), q)),
                Err(e) => Err(e),
            }
        } else if tag == 2 {
            match T::read_position(s, p) {
                Ok((v, q)) => if pos < q <= s.len() {
                    match read_term::<T>(s, q) {
                        Ok((b, q2)) => Ok((TermModel::Lambda { parameter_name: v, body: Box::new(b) }, q2)),
                        Err(e) => Err(e),
                    }
                } else {
                    Err(FlatError::StreamExhausted)
                },
                Err(e) => Err(e),
            }
        } else if tag == 3 {
            match read_term::<T>(s, p) {
                Ok((f, q)) => if pos < q <= s.len() {
                    match read_term::<T>(s, q) {
                        Ok((a, q2)) => Ok((TermModel::Apply { function: Box::new(f), argument: Box::new(a) }, q2)),
                        Err(e) => Err(e),
                    }
                } else {
                    Err(FlatError::StreamExhausted)
                },
                Err(e) => Err(e),
            }
        } else if tag == 4 {
            match read_constant(s, p) {
                Ok((c, q)) => Ok((TermModel::Constant(c), q)),
                Err(e) => Err(e),
            }
        } else if tag == 5 {
            match read_term::<T>(s, p) {
                Ok((b, q)) => Ok((TermModel::Force(Box::new(b)), q)),
                Err(e) => Err(e),
            }
        } else if tag == 6 {
            Ok((TermModel::Error, p))
        } else if tag == 7 {
            read_builtin_term::<T>(s, p)
        } else {
            Err(FlatError::UnknownTermTag(tag as u8))
        }
    }
}

pub open spec fn read_builtin_term<T: Binder>(s: Seq<bool>, p: nat) -> Result<(TermModel<T::V>, nat), FlatError> {
    match read_builtin(s, p) {
        Ok((f, q)) => Ok((TermModel::Builtin(f), q)),
        Err(e) => Err(e),
    }
}

impl<T: Binder> Term<T> {
    /// Writes a term: its variant tag, then its fields in order.
    pub fn encode(&self, e: &mut Encoder) -> (r: Result<(), FlatError>)
        ensures
            r is Ok,
            final(e)@ == old(e)@ + term_bits::<T>(self@, old(e)@.len()),
        decreases self,
    {
        let ghost s0 = e@;
        match self {
            Term::Var(name) => {
                encode_term_tag(0, e)?;
                name.encode(e)?;
            },
            Term::Delay(term) => {
                encode_term_tag(1, e)?;
                term.encode(e)?;
            },
            Term::Lambda { parameter_name, body } => {
                encode_term_tag(2, e)?;
                parameter_name.binder_encode(e)?;
                body.encode(e)?;
            },
            Term::Apply { function, argument } => {
                encode_term_tag(3, e)?;
                function.encode(e)?;
                argument.encode(e)?;
            },
            Term::Constant(constant) => {
                encode_term_tag(4, e)?;
                constant.encode(e)?;
            },
            Term::Force(term) => {
                encode_term_tag(5, e)?;
                term.encode(e)?;
            },
            Term::Error => {
                encode_term_tag(6, e)?;
            },
            Term::Builtin(builtin) => {
                encode_term_tag(7, e)?;
                builtin.encode(e)?;
            },
        }
        proof {
            lemma_tag_lens();
        }
        assert(e@ =~= s0 + term_bits::<T>(self@, s0.len()));
        Ok(())
    }

    /// Reads a term; an unknown variant tag stops the read with an error.
    pub fn decode(d: &mut Decoder) -> (r: Result<Term<T>, FlatError>)
        requires
            old(d).wf(),
        ensures
            final(d).wf(),
            final(d).bits == old(d).bits,
            final(d).pos >= old(d).pos,
            match read_term::<T>(old(d).bits@, old(d).pos as nat) {
                Ok((t, p)) => r is Ok && r->Ok_0@ == t && final(d).pos == p,
                Err(e) => r == Err::<Term<T>, FlatError>(e),
            },
        decreases old(d).bits@.len() - old(d).pos,
    {
        reveal(read_term);
        let tag = decode_term_tag(d)?;
        if tag == 0 {
            Ok(Term::Var(T::decode(d)?))
        } else if tag == 1 {
            Ok(Term::Delay(Box::new(Term::decode(d)?)))
        } else if tag == 2 {
            let parameter_name = T::binder_decode(d)?;
            let body = Term::decode(d)?;
            Ok(Term::Lambda { parameter_name, body: Box::new(body) })
        } else if tag == 3 {
            let function = Term::decode(d)?;
            let argument = Term::decode(d)?;
            Ok(Term::Apply { function: Box::new(function), argument: Box::new(argument) })
        } else if tag == 4 {
            Ok(Term::Constant(Constant::decode(d)?))
        } else if tag == 5 {
            Ok(Term::Force(Box::new(Term::decode(d)?)))
        } else if tag == 6 {
            Ok(Term::Error)
        } else if tag == 7 {
            Ok(Term::Builtin(DefaultFunction::decode(d)?))
        } else {
            Err(FlatError::UnknownTermTag(tag))
        }
    }
}

proof fn lemma_tag_lens()
    ensures
        forall|t: nat| #[trigger] bits_of(t, 4).len() == 4,
        forall|t: nat| #[trigger] bits_of(t, 7).len() == 7,
{
    assert forall|t: nat| #[trigger] bits_of(t, 4).len() == 4 by {
        lemma_bits_of_len(t, 4);
    }
    assert forall|t: nat| #[trigger] bits_of(t, 7).len() == 7 by {
        lemma_bits_of_len(t, 7);
    }
}

proof fn lemma_tag_list_round_trip(t: nat, pre: Seq<bool>, post: Seq<bool>)
    requires
        t < 16,
    ensures
        read_constant_tag(pre + tag_list_bits(t) + post, pre.len()) == Ok::<(u8, nat), FlatError>(
            (t as u8, pre.len() + 6),
        ),
        tag_list_bits(t).len() == 6,
{
    let s = pre + tag_list_bits(t) + post;
    let p = pre.len();
    lemma_bits_of_len(t, 4);
    lemma_pow2_unfold(4);
    lemma_value_of_bits(t, 4);
    assert(s.subrange(p + 1int, p + 5int) =~= bits_of(t, 4));
    assert(s[p as int]);
    assert(!s[p + 5int]);
    assert(read_tag_list(s, p + 5) == Ok::<(Seq<u8>, nat), FlatError>((Seq::empty(), p + 6)));
    assert(seq![t as u8] + Seq::<u8>::empty() =~= seq![t as u8]);
}

#[verifier::spinoff_prover]
#[verifier::rlimit(100)]
proof fn lemma_constant_round_trip(c: ConstantModel, pre: Seq<bool>, post: Seq<bool>)
    requires
        constant_round_trips(c),
    ensures
        read_constant(pre + constant_bits(c, pre.len()) + post, pre.len()) == Ok::<
            (ConstantModel, nat),
            FlatError,
        >((c, pre.len() + constant_bits(c, pre.len()).len())),
{
    let s = pre + constant_bits(c, pre.len()) + post;
    match c {
        ConstantModel::Integer(i) => {
            let y = word_bits(zigzag(i));
            assert(s =~= pre + tag_list_bits(0) + (y + post));
            lemma_tag_list_round_trip(0, pre, y + post);
            assert(s =~= (pre + tag_list_bits(0)) + y + post);
            lemma_i64_round_trip(i, pre + tag_list_bits(0), post);
        },
        ConstantModel::ByteString(b) => {
            lemma_tag_list_round_trip(1, pre, post);
            let y = bytes_field_bits(b, pre.len() + 6);
            assert(s =~= pre + tag_list_bits(1) + (y + post));
            lemma_tag_list_round_trip(1, pre, y + post);
            assert(s =~= (pre + tag_list_bits(1)) + y + post);
            lemma_bytes_field_round_trip(b, pre + tag_list_bits(1), post);
        },
        ConstantModel::String(t) => {
            lemma_tag_list_round_trip(2, pre, post);
            let y = text_bits(t, pre.len() + 6);
            assert(s =~= pre + tag_list_bits(2) + (y + post));
            lemma_tag_list_round_trip(2, pre, y + post);
            assert(s =~= (pre + tag_list_bits(2)) + y + post);
            lemma_text_round_trip(t, pre + tag_list_bits(2), post);
        },
        ConstantModel::Char(_) => {},
        ConstantModel::Unit => {
            lemma_tag_list_round_trip(3, pre, post);
        },
        ConstantModel::Bool(b) => {
            assert(s =~= pre + tag_list_bits(4) + (seq![b] + post));
            lemma_tag_list_round_trip(4, pre, seq![b] + post);
            assert(s[pre.len() + 6int] == b);
        },
    }
}

/// Every binder's model is one that its type has.
pub open spec fn term_valid<T: Binder>(t: TermModel<T::V>) -> bool
    decreases t,
{
    match t {
        TermModel::Var(v) => T::valid(v),
        TermModel::Delay(b) => term_valid::<T>(*b),
        TermModel::Lambda { parameter_name, body } => T::valid(parameter_name) && term_valid::<T>(
            *body,
        ),
        TermModel::Apply { function, argument } => term_valid::<T>(*function) && term_valid::<T>(
            *argument,
        ),
        TermModel::Constant(c) => match c {
            ConstantModel::Integer(i) => i64::MIN <= i <= i64::MAX,
            _ => true,
        },
        TermModel::Force(b) => term_valid::<T>(*b),
        TermModel::Error => true,
        TermModel::Builtin(_) => true,
    }
}

/// No constant in the term is a character.
pub open spec fn free_of_chars<B>(t: TermModel<B>) -> bool
    decreases t,
{
    match t {
        TermModel::Delay(b) => free_of_chars(*b),
        TermModel::Lambda { parameter_name, body } => free_of_chars(*body),
        TermModel::Apply { function, argument } => free_of_chars(*function) && free_of_chars(
            *argument,
        ),
        TermModel::Constant(c) => !(c is Char),
        TermModel::Force(b) => free_of_chars(*b),
        _ => true,
    }
}

/// The term with each binding site as it reads back.
pub open spec fn reset_binders<T: Binder>(t: TermModel<T::V>) -> TermModel<T::V>
    decreases t,
{
    match t {
        TermModel::Delay(b) => TermModel::Delay(Box::new(reset_binders::<T>(*b))),
        TermModel::Lambda { parameter_name, body } => TermModel::Lambda {
            parameter_name: T::position_form(parameter_name),
            body: Box::new(reset_binders::<T>(*body)),
        },
        TermModel::Apply { function, argument } => TermModel::Apply {
            function: Box::new(reset_binders::<T>(*function)),
            argument: Box::new(reset_binders::<T>(*argument)),
        },
        TermModel::Force(b) => TermModel::Force(Box::new(reset_binders::<T>(*b))),
        _ => t,
    }
}

pub proof fn lemma_term_valid<T: Binder>(t: &Term<T>)
    ensures
        term_valid::<T>(t@),
    decreases t,
{
    match t {
        Term::Var(v) => T::lemma_valid(v),
        Term::Delay(b) => lemma_term_valid(&**b),
        Term::Lambda { parameter_name, body } => {
            T::lemma_valid(parameter_name);
            lemma_term_valid(&**body);
        },
        Term::Apply { function, argument } => {
            lemma_term_valid(&**function);
            lemma_term_valid(&**argument);
        },
        Term::Force(b) => lemma_term_valid(&**b),
        _ => {},
    }
}

proof fn lemma_tag_at(tag: nat, n: nat, pre: Seq<bool>, rest: Seq<bool>)
    requires
        tag < pow2(n),
    ensures
        (pre + (bits_of(tag, n) + rest)).subrange(pre.len() as int, (pre.len() + n) as int) == bits_of(tag, n),
        value_of(bits_of(tag, n)) == tag,
        pre + (bits_of(tag, n) + rest) == (pre + bits_of(tag, n)) + rest,
{
    lemma_bits_of_len(tag, n);
    lemma_value_of_bits(tag, n);
    assert((pre + (bits_of(tag, n) + rest)).subrange(pre.len() as int, (pre.len() + n) as int) =~= bits_of(tag, n));
    assert(pre + (bits_of(tag, n) + rest) =~= (pre + bits_of(tag, n)) + rest);
}

proof fn lemma_read_var<T: Binder>(s: Seq<bool>, p: nat, v: T::V, q: nat)
    requires
        p + 4 <= s.len(),
        value_of(s.subrange(p as int, p + 4int)) == 0,
        T::read_occurrence(s, p + 4) == Ok::<(T::V, nat), FlatError>((v, q)),
    ensures
        read_term::<T>(s, p) == Ok::<(TermModel<T::V>, nat), FlatError>((TermModel::Var(v), q)),
{
    reveal(read_term);
}

proof fn lemma_read_delay<T: Binder>(s: Seq<bool>, p: nat, b: TermModel<T::V>, q: nat)
    requires
        p + 4 <= s.len(),
        value_of(s.subrange(p as int, p + 4int)) == 1,
        read_term::<T>(s, p + 4) == Ok::<(TermModel<T::V>, nat), FlatError>((b, q)),
    ensures
        read_term::<T>(s, p) == Ok::<(TermModel<T::V>, nat), FlatError>(
            (TermModel::Delay(Box::new(b)), q),
        ),
{
    reveal(read_term);
}

proof fn lemma_read_lambda<T: Binder>(
    s: Seq<bool>,
    p: nat,
    v: T::V,
    q1: nat,
    b: TermModel<T::V>,
    q2: nat,
)
    requires
        p + 4 <= s.len(),
        value_of(s.subrange(p as int, p + 4int)) == 2,
        T::read_position(s, p + 4) == Ok::<(T::V, nat), FlatError>((v, q1)),
        p < q1 <= s.len(),
        read_term::<T>(s, q1) == Ok::<(TermModel<T::V>, nat), FlatError>((b, q2)),
    ensures
        read_term::<T>(s, p) == Ok::<(TermModel<T::V>, nat), FlatError>(
            (TermModel::Lambda { parameter_name: v, body: Box::new(b) }, q2),
        ),
{
    reveal(read_term);
}

proof fn lemma_read_apply<T: Binder>(
    s: Seq<bool>,
    p: nat,
    f: TermModel<T::V>,
    q1: nat,
    a: TermModel<T::V>,
    q2: nat,
)
    requires
        p + 4 <= s.len(),
        value_of(s.subrange(p as int, p + 4int)) == 3,
        read_term::<T>(s, p + 4) == Ok::<(TermModel<T::V>, nat), FlatError>((f, q1)),
        p < q1 <= s.len(),
        read_term::<T>(s, q1) == Ok::<(TermModel<T::V>, nat), FlatError>((a, q2)),
    ensures
        read_term::<T>(s, p) == Ok::<(TermModel<T::V>, nat), FlatError>(
            (TermModel::Apply { function: Box::new(f), argument: Box::new(a) }, q2),
        ),
{
    reveal(read_term);
}

proof fn lemma_read_constant_term<T: Binder>(s: Seq<bool>, p: nat, c: ConstantModel, q: nat)
    requires
        p + 4 <= s.len(),
        value_of(s.subrange(p as int, p + 4int)) == 4,
        read_constant(s, p + 4) == Ok::<(ConstantModel, nat), FlatError>((c, q)),
    ensures
        read_term::<T>(s, p) == Ok::<(TermModel<T::V>, nat), FlatError>(
            (TermModel::Constant(c), q),
        ),
{
    reveal(read_term);
}

proof fn lemma_read_force<T: Binder>(s: Seq<bool>, p: nat, b: TermModel<T::V>, q: nat)
    requires
        p + 4 <= s.len(),
        value_of(s.subrange(p as int, p + 4int)) == 5,
        read_term::<T>(s, p + 4) == Ok::<(TermModel<T::V>, nat), FlatError>((b, q)),
    ensures
        read_term::<T>(s, p) == Ok::<(TermModel<T::V>, nat), FlatError>(
            (TermModel::Force(Box::new(b)), q),
        ),
{
    reveal(read_term);
}

proof fn lemma_read_error<T: Binder>(s: Seq<bool>, p: nat)
    requires
        p + 4 <= s.len(),
        value_of(s.subrange(p as int, p + 4int)) == 6,
    ensures
        read_term::<T>(s, p) == Ok::<(TermModel<T::V>, nat), FlatError>((TermModel::Error, p + 4)),
{
    reveal(read_term);
}

proof fn lemma_read_builtin_term<T: Binder>(s: Seq<bool>, p: nat, f: DefaultFunction, q: nat)
    requires
        p + 4 <= s.len(),
        value_of(s.subrange(p as int, p + 4int)) == 7,
        read_builtin(s, p + 4) == Ok::<(DefaultFunction, nat), FlatError>((f, q)),
    ensures
        read_term::<T>(s, p) == Ok::<(TermModel<T::V>, nat), FlatError>(
            (TermModel::Builtin(f), q),
        ),
{
    reveal(read_term);
}

/// Reading back what a term was written as gives the term, with each binding site as
/// its representation reads it back, and ends where the writing ended.
#[verifier::spinoff_prover]
#[verifier::rlimit(100)]
pub proof fn lemma_term_round_trip<T: Binder>(t: TermModel<T::V>, pre: Seq<bool>, post: Seq<bool>)
    requires
        term_valid::<T>(t),
        free_of_chars(t),
    ensures
        read_term::<T>(pre + term_bits::<T>(t, pre.len()) + post, pre.len()) == Ok::<
            (TermModel<T::V>, nat),
            FlatError,
        >((reset_binders::<T>(t), pre.len() + term_bits::<T>(t, pre.len()).len())),
    decreases t,
{
    let s = pre + term_bits::<T>(t, pre.len()) + post;
    let p = pre.len();
    lemma_pow2_unfold(4);
    lemma_tag_lens();
    match t {
        TermModel::Var(v) => {
            let x = T::occurrence_bits(v, p + 4);
            lemma_tag_at(0, 4, pre, x + post);
            assert(s =~= pre + (bits_of(0, 4) + (x + post)));
            assert(s =~= (pre + bits_of(0, 4)) + x + post);
            T::lemma_occurrence_round_trip(v, pre + bits_of(0, 4), post);
            lemma_read_var::<T>(s, p, v, p + 4 + x.len());
        },
        TermModel::Delay(b) => {
            let x = term_bits::<T>(*b, p + 4);
            lemma_tag_at(1, 4, pre, x + post);
            assert(s =~= pre + (bits_of(1, 4) + (x + post)));
            assert(s =~= (pre + bits_of(1, 4)) + x + post);
            lemma_term_round_trip::<T>(*b, pre + bits_of(1, 4), post);
            lemma_read_delay::<T>(s, p, reset_binders::<T>(*b), p + 4 + x.len());
        },
        TermModel::Lambda { parameter_name, body } => {
            let pb = T::position_bits(parameter_name, p + 4);
            let x = term_bits::<T>(*body, p + 4 + pb.len());
            lemma_tag_at(2, 4, pre, pb + x + post);
            assert(s =~= pre + (bits_of(2, 4) + (pb + x + post)));
            let pre1 = pre + bits_of(2, 4);
            assert(s =~= pre1 + pb + (x + post));
            T::lemma_position_round_trip(parameter_name, pre1, x + post);
            assert(s =~= (pre1 + pb) + x + post);
            lemma_term_round_trip::<T>(*body, pre1 + pb, post);
            lemma_read_lambda::<T>(
                s,
                p,
                T::position_form(parameter_name),
                p + 4 + pb.len(),
                reset_binders::<T>(*body),
                p + 4 + pb.len() + x.len(),
            );
        },
        TermModel::Apply { function, argument } => {
            let fb = term_bits::<T>(*function, p + 4);
            let x = term_bits::<T>(*argument, p + 4 + fb.len());
            lemma_tag_at(3, 4, pre, fb + x + post);
            assert(s =~= pre + (bits_of(3, 4) + (fb + x + post)));
            let pre1 = pre + bits_of(3, 4);
            assert(s =~= pre1 + fb + (x + post));
            lemma_term_round_trip::<T>(*function, pre1, x + post);
            assert(s =~= (pre1 + fb) + x + post);
            lemma_term_round_trip::<T>(*argument, pre1 + fb, post);
            lemma_read_apply::<T>(
                s,
                p,
                reset_binders::<T>(*function),
                p + 4 + fb.len(),
                reset_binders::<T>(*argument),
                p + 4 + fb.len() + x.len(),
            );
        },
        TermModel::Constant(c) => {
            let x = constant_bits(c, p + 4);
            lemma_tag_at(4, 4, pre, x + post);
            assert(s =~= pre + (bits_of(4, 4) + (x + post)));
            assert(s =~= (pre + bits_of(4, 4)) + x + post);
            lemma_constant_round_trip(c, pre + bits_of(4, 4), post);
            lemma_read_constant_term::<T>(s, p, c, p + 4 + x.len());
        },
        TermModel::Force(b) => {
            let x = term_bits::<T>(*b, p + 4);
            lemma_tag_at(5, 4, pre, x + post);
            assert(s =~= pre + (bits_of(5, 4) + (x + post)));
            assert(s =~= (pre + bits_of(5, 4)) + x + post);
            lemma_term_round_trip::<T>(*b, pre + bits_of(5, 4), post);
            lemma_read_force::<T>(s, p, reset_binders::<T>(*b), p + 4 + x.len());
        },
        TermModel::Error => {
            lemma_tag_at(6, 4, pre, post);
            assert(s =~= pre + (bits_of(6, 4) + post));
            lemma_read_error::<T>(s, p);
        },
        TermModel::Builtin(f) => {
            let x = bits_of(f.code() as nat, 7);
            lemma_tag_at(7, 4, pre, x + post);
            assert(s =~= pre + (bits_of(7, 4) + (x + post)));
            crate::builtins::lemma_code_round_trip(f, 0);
            lemma_pow2_unfold(7);
            lemma_tag_at(f.code() as nat, 7, pre + bits_of(7, 4), post);
            assert(s =~= (pre + bits_of(7, 4)) + (x + post));
            lemma_read_builtin_term::<T>(s, p, f, p + 11);
        },
    }
}

/// The bits of a program that starts at bit `pos`: the three parts of its version,
/// then its root term.
pub open spec fn program_bits<T: Binder>(p: ProgramModel<T::V>, pos: nat) -> Seq<bool> {
    let v = word_bits(p.version.0) + word_bits(p.version.1) + word_bits(p.version.2);
    v + term_bits::<T>(p.term, pos + v.len())
}

/// The bits of a program as stored: padded up to a whole number of bytes.
pub open spec fn flat_bits<T: Binder>(p: ProgramModel<T::V>) -> Seq<bool> {
    program_bits::<T>(p, 0) + filler_bits(program_bits::<T>(p, 0).len())
}

/// Reading a program at `pos`: its model and the position after it.
pub open spec fn read_program_at<T: Binder>(s: Seq<bool>, pos: nat) -> Result<(ProgramModel<T::V>, nat), FlatError> {
    match read_u64(s, pos) {
        Ok((major, p1)) => match read_u64(s, p1) {
            Ok((minor, p2)) => match read_u64(s, p2) {
                Ok((patch, p3)) => match read_term::<T>(s, p3) {
                    Ok((t, p4)) => Ok((ProgramModel { version: (major, minor, patch), term: t }, p4)),
                    Err(e) => Err(e),
                },
                Err(e) => Err(e),
            },
            Err(e) => Err(e),
        },
        Err(e) => Err(e),
    }
}

/// Reading a stored program from the start of `s`: the program, then its padding.
pub open spec fn read_program<T: Binder>(s: Seq<bool>) -> Result<ProgramModel<T::V>, FlatError> {
    match read_program_at::<T>(s, 0) {
        Ok((m, p)) => match read_filler(s, p) {
            Ok(_) => Ok(m),
            Err(e) => Err(e),
        },
        Err(e) => Err(e),
    }
}

impl<T: Binder> Program<T> {
    /// Writes the version's three parts, then the root term.
    pub fn encode(&self, e: &mut Encoder) -> (r: Result<(), FlatError>)
        ensures
            r is Ok,
            final(e)@ == old(e)@ + program_bits::<T>(self@, old(e)@.len()),
    {
        let (major, minor, patch) = self.version;
        e.word(major);
        e.word(minor);
        e.word(patch);
        self.term.encode(e)?;
        assert(e@ =~= old(e)@ + program_bits::<T>(self@, old(e)@.len()));
        Ok(())
    }

    /// Reads the version's three parts, then the root term.
    pub fn decode(d: &mut Decoder) -> (r: Result<Program<T>, FlatError>)
        requires
            old(d).wf(),
        ensures
            final(d).wf(),
            final(d).bits == old(d).bits,
            final(d).pos >= old(d).pos,
            match read_program_at::<T>(old(d).bits@, old(d).pos as nat) {
                Ok((m, p)) => r is Ok && r->Ok_0@ == m && final(d).pos == p,
                Err(e) => r is Err && r->Err_0 == e,
            },
    {
        let major = d.word()?;
        let minor = d.word()?;
        let patch = d.word()?;
        let term = Term::decode(d)?;
        Ok(Program { version: (major, minor, patch), term })
    }

    /// The program as stored: its bits padded to whole bytes.
    pub fn to_flat(&self) -> (r: Result<Vec<u8>, FlatError>)
        ensures
            r is Ok && bytes_bits(r->Ok_0@) == flat_bits::<T>(self@),
    {
        let mut e = Encoder::new();
        self.encode(&mut e)?;
        e.filler();
        Ok(pack(e.bits))
    }

    /// Reads a stored program.
    pub fn unflat(bytes: &[u8]) -> (r: Result<Program<T>, FlatError>)
        ensures
            match read_program::<T>(bytes_bits(bytes@)) {
                Ok(m) => r is Ok && r->Ok_0@ == m,
                Err(e) => r is Err && r->Err_0 == e,
            },
    {
        let mut d = Decoder { bits: unpack(bytes), pos: 0 };
        let program = Program::decode(&mut d)?;
        d.filler()?;
        Ok(program)
    }
}

/// Writing a program and reading it back gives its version and its terms, with each
/// binding site as its representation reads it back; every occurrence is kept.
pub proof fn lemma_program_round_trip<T: Binder>(p: &Program<T>)
    requires
        free_of_chars(p.term@),
    ensures
        read_program::<T>(flat_bits::<T>(p@)) == Ok::<ProgramModel<T::V>, FlatError>(
            ProgramModel { version: p@.version, term: reset_binders::<T>(p@.term) },
        ),
{
    let m = p@;
    let w0 = word_bits(m.version.0);
    let w1 = word_bits(m.version.1);
    let w2 = word_bits(m.version.2);
    let v = w0 + w1 + w2;
    let tb = term_bits::<T>(m.term, v.len());
    let fb = filler_bits(v.len() + tb.len());
    let s = flat_bits::<T>(m);
    let e = Seq::<bool>::empty();
    assert(s =~= e + w0 + (w1 + w2 + tb + fb));
    lemma_u64_round_trip(m.version.0, e, w1 + w2 + tb + fb);
    assert(s =~= w0 + w1 + (w2 + tb + fb));
    lemma_u64_round_trip(m.version.1, w0, w2 + tb + fb);
    assert(s =~= (w0 + w1) + w2 + (tb + fb));
    lemma_u64_round_trip(m.version.2, w0 + w1, tb + fb);
    lemma_term_valid(&p.term);
    assert(s =~= v + tb + fb);
    lemma_term_round_trip::<T>(m.term, v, fb);
    assert(s =~= (v + tb) + fb + e);
    lemma_filler_round_trip(v + tb, e);
}

/// The binding sites of a term with named variables read back as they were written.
pub proof fn lemma_named_reset(t: TermModel<(Seq<char>, int)>)
    ensures
        reset_binders::<Name>(t) == t,
    decreases t,
{
    match t {
        TermModel::Delay(b) => lemma_named_reset(*b),
        TermModel::Lambda { parameter_name, body } => lemma_named_reset(*body),
        TermModel::Apply { function, argument } => {
            lemma_named_reset(*function);
            lemma_named_reset(*argument);
        },
        TermModel::Force(b) => lemma_named_reset(*b),
        _ => {},
    }
}

/// A program with named variables and no character constants reads back as itself
/// from what it is stored as.
pub proof fn lemma_named_program_round_trip(p: &Program<Name>)
    requires
        free_of_chars(p.term@),
    ensures
        read_program::<Name>(flat_bits::<Name>(p@)) == Ok::<ProgramModel<(Seq<char>, int)>, FlatError>(p@),
{
    lemma_program_round_trip(p);
    lemma_named_reset(p@.term);
}

/// The lowercase hexadecimal digit for `n < 16`.
pub open spec fn hex_digit(n: nat) -> char {
    seq!['0', '1', '2', '3', '4', '5', '6', '7', '8', '9', 'a', 'b', 'c', 'd', 'e', 'f'][n as int]
}

/// Bytes as text: two lowercase hexadecimal digits each, the high one first.
pub open spec fn hex_text(b: Seq<u8>) -> Seq<char>
    decreases b.len(),
{
    if b.len() == 0 {
        Seq::empty()
    } else {
        hex_text(b.drop_last()) + seq![hex_digit(b.last() as nat / 16), hex_digit(b.last() as nat % 16)]
    }
}

/// The value of a hexadecimal digit of either case.
pub open spec fn hex_value(c: char) -> Option<nat> {
    let u = c as u32;
    if 48 <= u <= 57 {
        Some((u - 48) as nat)
    } else if 97 <= u <= 102 {
        Some((u - 87) as nat)
    } else if 65 <= u <= 70 {
        Some((u - 55) as nat)
    } else {
        None
    }
}

/// The bytes that hexadecimal text spells, if it is an even number of digits.
pub open spec fn hex_bytes(t: Seq<char>) -> Option<Seq<u8>>
    decreases t.len(),
{
    if t.len() == 0 {
        Some(Seq::empty())
    } else if t.len() < 2 {
        None
    } else {
        match (hex_bytes(t.take(t.len() - 2)), hex_value(t[t.len() - 2]), hex_value(t[t.len() - 1])) {
            (Some(b), Some(hi), Some(lo)) => Some(b.push((16 * hi + lo) as u8)),
            _ => None,
        }
    }
}

/// Relies on `hex::encode`: two lowercase digits for each byte, the high one first.
#[verifier::external_body]
fn hex_encode(b: &[u8]) -> (r: String)
    ensures
        r@ == hex_text(b@),
{
    hex::encode(b)
}

/// Relies on `hex::decode`: it accepts an even number of hexadecimal digits of either
/// case, and each pair gives the byte `16 * high + low`. Text that is not ASCII holds
/// a byte that is no digit, and is refused.
#[verifier::external_body]
fn hex_decode(t: &str) -> (r: Option<Vec<u8>>)
    ensures
        match hex_bytes(t@) {
            Some(b) => r is Some && r->0@ == b,
            None => r is None,
        },
{
    hex::decode(t).ok()
}

proof fn lemma_hex_round_trip(b: Seq<u8>)
    ensures
        hex_bytes(hex_text(b)) == Some(b),
    decreases b.len(),
{
    if b.len() > 0 {
        lemma_hex_round_trip(b.drop_last());
        let t = hex_text(b);
        let x = b.last() as nat;
        assert(t.take(t.len() - 2) =~= hex_text(b.drop_last()));
        assert(hex_value(hex_digit(x / 16)) == Some(x / 16));
        assert(hex_value(hex_digit(x % 16)) == Some(x % 16));
        assert(b.drop_last().push((16 * (x / 16) + x % 16) as u8) =~= b);
    }
}

impl<T: Binder> Program<T> {
    /// The program as stored, written as hexadecimal text.
    pub fn flat_hex(&self) -> (r: Result<String, FlatError>)
        ensures
            r is Ok,
            forall|b: Seq<u8>| bytes_bits(b) == flat_bits::<T>(self@) ==> r->Ok_0@ == hex_text(b),
    {
        let bytes = self.to_flat()?;
        proof {
            crate::bits::lemma_bytes_bits_injective(bytes@);
        }
        Ok(hex_encode(bytes.as_slice()))
    }

    /// Reads a stored program from hexadecimal text.
    pub fn from_hex(text: &str) -> (r: Result<Program<T>, FlatError>)
        ensures
            match hex_bytes(text@) {
                Some(b) => match read_program::<T>(bytes_bits(b)) {
                    Ok(m) => r is Ok && r->Ok_0@ == m,
                    Err(e) => r is Err && r->Err_0 == e,
                },
                None => r == Err::<Program<T>, FlatError>(FlatError::InvalidHex),
            },
    {
        match hex_decode(text) {
            Some(bytes) => Program::unflat(bytes.as_slice()),
            None => Err(FlatError::InvalidHex),
        }
    }
}

/// A program with named variables and no character constants comes back as itself
/// from its hexadecimal text.
pub proof fn lemma_hex_program_round_trip(p: &Program<Name>, b: Seq<u8>)
    requires
        free_of_chars(p.term@),
        bytes_bits(b) == flat_bits::<Name>(p@),
    ensures
        hex_bytes(hex_text(b)) == Some(b),
        read_program::<Name>(bytes_bits(b)) == Ok::<ProgramModel<(Seq<char>, int)>, FlatError>(p@),
{
    lemma_hex_round_trip(b);
    lemma_named_program_round_trip(p);
}

/// A term tag of 8 or more, and a constant tag of 5 or more, stop a read with an error
/// that names the tag.
pub proof fn lemma_unknown_tags<T: Binder>(s: Seq<bool>, pos: nat)
    ensures
        pos + 4 <= s.len() && value_of(s.subrange(pos as int, pos + 4int)) >= 8 ==> read_term::<T>(s, pos)
            == Err::<(TermModel<T::V>, nat), FlatError>(
            FlatError::UnknownTermTag(value_of(s.subrange(pos as int, pos + 4int)) as u8),
        ),
        read_constant_tag(s, pos) is Ok && read_constant_tag(s, pos)->Ok_0.0 >= 5 ==> read_constant(
            s,
            pos,
        ) == Err::<(ConstantModel, nat), FlatError>(
            FlatError::UnknownConstantTag(read_constant_tag(s, pos)->Ok_0.0),
        ),
{
    reveal(read_term);
}

} // verus!
