//! The `CK10` checkpoint format.
//!
//! A checkpoint is the magic `CK10`, a version byte (1), the tensor count as a
//! little-endian `u32`, then each tensor: its rank as `u32`, each dimension as `u64`,
//! and its elements as 32-bit words, all little-endian. Elements are carried as their
//! bit patterns, so any 32-bit element type can be stored.
use vstd::prelude::*;
use crate::compute::tensor::{shape_product, shape_fits, lemma_shape_product_take_step};

verus! {

/// The format version this library reads and writes.
pub const CHECKPOINT_VERSION: u8 = 1;

/// The four magic bytes `CK10`.
pub open spec fn magic() -> Seq<u8> {
    seq![0x43u8, 0x4bu8, 0x31u8, 0x30u8]
}

/// Why bytes could not be read as a checkpoint.
#[derive(Clone, Copy, Debug, PartialEq, Eq, Structural)]
pub enum CheckpointError {
    /// The bytes do not start with `CK10`.
    BadMagic,
    /// The version byte is not the one this library reads.
    UnsupportedVersion { version: u8 },
    /// The bytes end before the tensors that the header announces.
    Truncated,
}

/// Little-endian bytes of a `u32`.
pub open spec fn le32(x: u32) -> Seq<u8> {
    seq![(x & 0xff) as u8, ((x >> 8u32) & 0xff) as u8, ((x >> 16u32) & 0xff) as u8, ((x >> 24u32) & 0xff) as u8]
}

/// Little-endian bytes of a `u64`.
pub open spec fn le64(x: u64) -> Seq<u8> {
    seq![
        (x & 0xff) as u8,
        ((x >> 8u64) & 0xff) as u8,
        ((x >> 16u64) & 0xff) as u8,
        ((x >> 24u64) & 0xff) as u8,
        ((x >> 32u64) & 0xff) as u8,
        ((x >> 40u64) & 0xff) as u8,
        ((x >> 48u64) & 0xff) as u8,
        ((x >> 56u64) & 0xff) as u8,
    ]
}

/// Each dimension as a little-endian `u64`, in order.
pub open spec fn dims_bytes(dims: Seq<usize>) -> Seq<u8>
    decreases dims.len(),
{
    if dims.len() == 0 {
        Seq::empty()
    } else {
        dims_bytes(dims.drop_last()) + le64(dims.last() as u64)
    }
}

/// Each word in little-endian order.
pub open spec fn words_bytes(words: Seq<u32>) -> Seq<u8>
    decreases words.len(),
{
    if words.len() == 0 {
        Seq::empty()
    } else {
        words_bytes(words.drop_last()) + le32(words.last())
    }
}

/// Encoding of one tensor: rank, dimensions, elements.
pub open spec fn tensor_bytes(t: (Seq<usize>, Seq<u32>)) -> Seq<u8> {
    le32(t.0.len() as u32) + dims_bytes(t.0) + words_bytes(t.1)
}

/// Encodings of the tensors, one after the other.
pub open spec fn tensors_bytes(ts: Seq<(Seq<usize>, Seq<u32>)>) -> Seq<u8>
    decreases ts.len(),
{
    if ts.len() == 0 {
        Seq::empty()
    } else {
        tensors_bytes(ts.drop_last()) + tensor_bytes(ts.last())
    }
}

/// The checkpoint of a list of tensors.
pub open spec fn checkpoint_bytes(ts: Seq<(Seq<usize>, Seq<u32>)>) -> Seq<u8> {
    magic() + seq![CHECKPOINT_VERSION] + le32(ts.len() as u32) + tensors_bytes(ts)
}

/// A tensor that a checkpoint can hold and give back: its rank fits the rank field, its
/// shape's element count fits in `usize`, and it has exactly that many elements.
pub open spec fn stored_ok(t: (Seq<usize>, Seq<u32>)) -> bool {
    &&& t.0.len() <= u32::MAX
    &&& shape_fits(t.0)
    &&& t.1.len() == shape_product(t.0)
}

/// `ts` is a list of storable tensors whose checkpoint `b` starts with.
pub open spec fn encodes(ts: Seq<(Seq<usize>, Seq<u32>)>, b: Seq<u8>) -> bool {
    &&& ts.len() <= u32::MAX
    &&& forall|k: int| 0 <= k < ts.len() ==> stored_ok(#[trigger] ts[k])
    &&& checkpoint_bytes(ts).len() <= b.len()
    &&& b.take(checkpoint_bytes(ts).len() as int) == checkpoint_bytes(ts)
}

/// What reading `b` as a checkpoint gives: the header is checked in order (magic, version),
/// then the tensors whose checkpoint `b` starts with; bytes after them are ignored.
pub open spec fn decode_spec(b: Seq<u8>) -> Result<Seq<(Seq<usize>, Seq<u32>)>, CheckpointError> {
    if b.len() < 4 {
        Err(CheckpointError::Truncated)
    } else if b.take(4) != magic() {
        Err(CheckpointError::BadMagic)
    } else if b.len() < 5 {
        Err(CheckpointError::Truncated)
    } else if b[4] != CHECKPOINT_VERSION {
        Err(CheckpointError::UnsupportedVersion { version: b[4] })
    } else if exists|ts: Seq<(Seq<usize>, Seq<u32>)>| encodes(ts, b) {
        Ok(choose|ts: Seq<(Seq<usize>, Seq<u32>)>| encodes(ts, b))
    } else {
        Err(CheckpointError::Truncated)
    }
}

/// Views of a list of `(shape, words)` pairs.
pub open spec fn stored_views(ts: Seq<(Vec<usize>, Vec<u32>)>) -> Seq<(Seq<usize>, Seq<u32>)> {
    Seq::new(ts.len(), |k: int| (ts[k].0@, ts[k].1@))
}

// ---------------------------------------------------------------- byte-level facts

proof fn lemma_le32_inj(x: u32, y: u32)
    requires
        le32(x) == le32(y),
    ensures
        x == y,
{
    assert(le32(x)[0] == le32(y)[0]);
    assert(le32(x)[1] == le32(y)[1]);
    assert(le32(x)[2] == le32(y)[2]);
    assert(le32(x)[3] == le32(y)[3]);
    assert(x == y) by (bit_vector)
        requires
            (x & 0xff) as u8 == (y & 0xff) as u8,
            ((x >> 8u32) & 0xff) as u8 == ((y >> 8u32) & 0xff) as u8,
            ((x >> 16u32) & 0xff) as u8 == ((y >> 16u32) & 0xff) as u8,
            ((x >> 24u32) & 0xff) as u8 == ((y >> 24u32) & 0xff) as u8,
    ;
}

proof fn lemma_le64_inj(x: u64, y: u64)
    requires
        le64(x) == le64(y),
    ensures
        x == y,
{
    assert(le64(x)[0] == le64(y)[0]);
    assert(le64(x)[1] == le64(y)[1]);
    assert(le64(x)[2] == le64(y)[2]);
    assert(le64(x)[3] == le64(y)[3]);
    assert(le64(x)[4] == le64(y)[4]);
    assert(le64(x)[5] == le64(y)[5]);
    assert(le64(x)[6] == le64(y)[6]);
    assert(le64(x)[7] == le64(y)[7]);
    assert(x == y) by (bit_vector)
        requires
            (x & 0xff) as u8 == (y & 0xff) as u8,
            ((x >> 8u64) & 0xff) as u8 == ((y >> 8u64) & 0xff) as u8,
            ((x >> 16u64) & 0xff) as u8 == ((y >> 16u64) & 0xff) as u8,
            ((x >> 24u64) & 0xff) as u8 == ((y >> 24u64) & 0xff) as u8,
            ((x >> 32u64) & 0xff) as u8 == ((y >> 32u64) & 0xff) as u8,
            ((x >> 40u64) & 0xff) as u8 == ((y >> 40u64) & 0xff) as u8,
            ((x >> 48u64) & 0xff) as u8 == ((y >> 48u64) & 0xff) as u8,
            ((x >> 56u64) & 0xff) as u8 == ((y >> 56u64) & 0xff) as u8,
    ;
}

proof fn lemma_dims_bytes_len(dims: Seq<usize>)
    ensures
        dims_bytes(dims).len() == 8 * dims.len(),
    decreases dims.len(),
{
    if dims.len() > 0 {
        lemma_dims_bytes_len(dims.drop_last());
    }
}

proof fn lemma_words_bytes_len(words: Seq<u32>)
    ensures
        words_bytes(words).len() == 4 * words.len(),
    decreases words.len(),
{
    if words.len() > 0 {
        lemma_words_bytes_len(words.drop_last());
    }
}

/// Dimension `i` sits at bytes `8 i .. 8 i + 8` of the dimension bytes.
proof fn lemma_dims_bytes_at(dims: Seq<usize>, i: int)
    requires
        0 <= i < dims.len(),
    ensures
        dims_bytes(dims).subrange(8 * i, 8 * i + 8) == le64(dims[i] as u64),
    decreases dims.len(),
{
    lemma_dims_bytes_len(dims.drop_last());
    if i < dims.len() - 1 {
        lemma_dims_bytes_at(dims.drop_last(), i);
        lemma_dims_bytes_len(dims.drop_last().drop_last());
        assert(dims_bytes(dims).subrange(8 * i, 8 * i + 8) =~= dims_bytes(dims.drop_last()).subrange(8 * i, 8 * i + 8));
    } else {
        assert(dims_bytes(dims).subrange(8 * i, 8 * i + 8) =~= le64(dims.last() as u64));
    }
}

/// Word `i` sits at bytes `4 i .. 4 i + 4` of the word bytes.
proof fn lemma_words_bytes_at(words: Seq<u32>, i: int)
    requires
        0 <= i < words.len(),
    ensures
        words_bytes(words).subrange(4 * i, 4 * i + 4) == le32(words[i]),
    decreases words.len(),
{
    lemma_words_bytes_len(words.drop_last());
    if i < words.len() - 1 {
        lemma_words_bytes_at(words.drop_last(), i);
        assert(words_bytes(words).subrange(4 * i, 4 * i + 4) =~= words_bytes(words.drop_last()).subrange(4 * i, 4 * i + 4));
    } else {
        assert(words_bytes(words).subrange(4 * i, 4 * i + 4) =~= le32(words.last()));
    }
}

proof fn lemma_tensor_bytes_len(t: (Seq<usize>, Seq<u32>))
    ensures
        tensor_bytes(t).len() == 4 + 8 * t.0.len() + 4 * t.1.len(),
{
    lemma_dims_bytes_len(t.0);
    lemma_words_bytes_len(t.1);
}

/// Appending one tensor appends its encoding.
proof fn lemma_tensors_bytes_push(ts: Seq<(Seq<usize>, Seq<u32>)>, t: (Seq<usize>, Seq<u32>))
    ensures
        tensors_bytes(ts.push(t)) == tensors_bytes(ts) + tensor_bytes(t),
{
    assert(ts.push(t).drop_last() =~= ts);
}

/// Appending one dimension appends its bytes.
proof fn lemma_dims_bytes_push(dims: Seq<usize>, d: usize)
    ensures
        dims_bytes(dims.push(d)) == dims_bytes(dims) + le64(d as u64),
{
    assert(dims.push(d).drop_last() =~= dims);
}

/// Appending one word appends its bytes.
proof fn lemma_words_bytes_push(words: Seq<u32>, w: u32)
    ensures
        words_bytes(words.push(w)) == words_bytes(words) + le32(w),
{
    assert(words.push(w).drop_last() =~= words);
}

// ---------------------------------------------------------------- writing

/// Appends the little-endian bytes of `x`.
fn push_le32(out: &mut Vec<u8>, x: u32)
    ensures
        final(out)@ == old(out)@ + le32(x),
{
    out.push((x & 0xff) as u8);
    out.push(((x >> 8u32) & 0xff) as u8);
    out.push(((x >> 16u32) & 0xff) as u8);
    out.push(((x >> 24u32) & 0xff) as u8);
    assert(out@ =~= old(out)@ + le32(x));
}

/// Appends the little-endian bytes of `x`.
fn push_le64(out: &mut Vec<u8>, x: u64)
    ensures
        final(out)@ == old(out)@ + le64(x),
{
    out.push((x & 0xff) as u8);
    out.push(((x >> 8u64) & 0xff) as u8);
    out.push(((x >> 16u64) & 0xff) as u8);
    out.push(((x >> 24u64) & 0xff) as u8);
    out.push(((x >> 32u64) & 0xff) as u8);
    out.push(((x >> 40u64) & 0xff) as u8);
    out.push(((x >> 48u64) & 0xff) as u8);
    out.push(((x >> 56u64) & 0xff) as u8);
    assert(out@ =~= old(out)@ + le64(x));
}

/// The checkpoint bytes of `tensors`, each a shape and its elements' bit patterns.
pub fn encode(tensors: &[(Vec<usize>, Vec<u32>)]) -> (r: Vec<u8>)
    ensures
        r@ == checkpoint_bytes(stored_views(tensors@)),
{
    let ghost views = stored_views(tensors@);
    let mut out: Vec<u8> = Vec::new();
    out.push(0x43u8);
    out.push(0x4bu8);
    out.push(0x31u8);
    out.push(0x30u8);
    out.push(CHECKPOINT_VERSION);
    push_le32(&mut out, tensors.len() as u32);
    let ghost header = out@;
    assert(header =~= magic() + seq![CHECKPOINT_VERSION] + le32(views.len() as u32));
    assert(views.take(0) =~= Seq::<(Seq<usize>, Seq<u32>)>::empty());
    let mut k: usize = 0;
    while k < tensors.len()
        invariant
            k <= tensors.len(),
            views == stored_views(tensors@),
            header == magic() + seq![CHECKPOINT_VERSION] + le32(views.len() as u32),
            out@ == header + tensors_bytes(views.take(k as int)),
        decreases tensors.len() - k,
    {
        let shape = &tensors[k].0;
        let data = &tensors[k].1;
        let ghost before = out@;
        push_le32(&mut out, shape.len() as u32);
        let mut i: usize = 0;
        assert(shape@.take(0) =~= Seq::<usize>::empty());
        while i < shape.len()
            invariant
                i <= shape.len(),
                out@ == before + le32(shape.len() as u32) + dims_bytes(shape@.take(i as int)),
            decreases shape.len() - i,
        {
            push_le64(&mut out, shape[i] as u64);
            proof {
                lemma_dims_bytes_push(shape@.take(i as int), shape@[i as int]);
                assert(shape@.take(i as int).push(shape@[i as int]) =~= shape@.take(i + 1));
            }
            i = i + 1;
        }
        assert(shape@.take(shape.len() as int) =~= shape@);
        let ghost mid = out@;
        let mut j: usize = 0;
        assert(data@.take(0) =~= Seq::<u32>::empty());
        while j < data.len()
            invariant
                j <= data.len(),
                out@ == mid + words_bytes(data@.take(j as int)),
            decreases data.len() - j,
        {
            push_le32(&mut out, data[j]);
            proof {
                lemma_words_bytes_push(data@.take(j as int), data@[j as int]);
                assert(data@.take(j as int).push(data@[j as int]) =~= data@.take(j + 1));
            }
            j = j + 1;
        }
        assert(data@.take(data.len() as int) =~= data@);
        proof {
            assert(views[k as int] == (shape@, data@));
            lemma_tensors_bytes_push(views.take(k as int), views[k as int]);
            assert(views.take(k as int).push(views[k as int]) =~= views.take(k + 1));
            assert(out@ =~= header + tensors_bytes(views.take(k + 1)));
        }
        k = k + 1;
    }
    assert(views.take(tensors.len() as int) =~= views);
    out
}

// ---------------------------------------------------------------- reading

/// The `u32` stored little-endian at `pos`, if four bytes are left there.
fn read_u32(b: &[u8], pos: usize) -> (r: Option<u32>)
    requires
        pos <= b@.len(),
    ensures
        r is Some <==> pos + 4 <= b@.len(),
        r matches Some(x) ==> le32(x) == b@.subrange(pos as int, pos + 4),
{
    if b.len() - pos < 4 {
        return None;
    }
    let (b0, b1, b2, b3) = (b[pos], b[pos + 1], b[pos + 2], b[pos + 3]);
    let x: u32 = (b0 as u32) | ((b1 as u32) << 8u32) | ((b2 as u32) << 16u32) | ((b3 as u32) << 24u32);
    assert((x & 0xff) as u8 == b0 && ((x >> 8u32) & 0xff) as u8 == b1 && ((x >> 16u32) & 0xff) as u8 == b2 && ((
    x >> 24u32) & 0xff) as u8 == b3) by (bit_vector)
        requires
            x == (b0 as u32) | ((b1 as u32) << 8u32) | ((b2 as u32) << 16u32) | ((b3 as u32) << 24u32),
    ;
    assert(le32(x) =~= b@.subrange(pos as int, pos + 4));
    Some(x)
}

/// The `u64` stored little-endian at `pos`, if eight bytes are left there.
fn read_u64(b: &[u8], pos: usize) -> (r: Option<u64>)
    requires
        pos <= b@.len(),
    ensures
        r is Some <==> pos + 8 <= b@.len(),
        r matches Some(x) ==> le64(x) == b@.subrange(pos as int, pos + 8),
{
    if b.len() - pos < 8 {
        return None;
    }
    let (b0, b1, b2, b3) = (b[pos], b[pos + 1], b[pos + 2], b[pos + 3]);
    let (b4, b5, b6, b7) = (b[pos + 4], b[pos + 5], b[pos + 6], b[pos + 7]);
    let x: u64 = (b0 as u64) | ((b1 as u64) << 8u64) | ((b2 as u64) << 16u64) | ((b3 as u64) << 24u64) | ((
    b4 as u64) << 32u64) | ((b5 as u64) << 40u64) | ((b6 as u64) << 48u64) | ((b7 as u64) << 56u64);
    assert((x & 0xff) as u8 == b0 && ((x >> 8u64) & 0xff) as u8 == b1 && ((x >> 16u64) & 0xff) as u8 == b2 && ((
    x >> 24u64) & 0xff) as u8 == b3 && ((x >> 32u64) & 0xff) as u8 == b4 && ((x >> 40u64) & 0xff) as u8 == b5 && ((
    x >> 48u64) & 0xff) as u8 == b6 && ((x >> 56u64) & 0xff) as u8 == b7) by (bit_vector)
        requires
            x == (b0 as u64) | ((b1 as u64) << 8u64) | ((b2 as u64) << 16u64) | ((b3 as u64) << 24u64) | ((
            b4 as u64) << 32u64) | ((b5 as u64) << 40u64) | ((b6 as u64) << 48u64) | ((b7 as u64) << 56u64),
    ;
    assert(le64(x) =~= b@.subrange(pos as int, pos + 8));
    Some(x)
}

/// `t` is storable and its encoding is in `b` at `pos`.
pub open spec fn tensor_at(b: Seq<u8>, pos: int, t: (Seq<usize>, Seq<u32>)) -> bool {
    &&& stored_ok(t)
    &&& pos + tensor_bytes(t).len() <= b.len()
    &&& b.subrange(pos, pos + tensor_bytes(t).len()) == tensor_bytes(t)
}

/// Where the parts of a tensor stored at `pos` lie in `b`.
proof fn lemma_tensor_at_parts(b: Seq<u8>, pos: int, t: (Seq<usize>, Seq<u32>))
    requires
        0 <= pos,
        tensor_at(b, pos, t),
    ensures
        pos + 4 + 8 * t.0.len() + 4 * t.1.len() <= b.len(),
        b.subrange(pos, pos + 4) == le32(t.0.len() as u32),
        forall|i: int| 0 <= i < t.0.len() ==> b.subrange(pos + 4 + 8 * i, pos + 4 + 8 * i + 8) == le64(
            #[trigger] t.0[i] as u64,
        ),
        forall|j: int| 0 <= j < t.1.len() ==> b.subrange(
            pos + 4 + 8 * t.0.len() + 4 * j,
            pos + 4 + 8 * t.0.len() + 4 * j + 4,
        ) == le32(#[trigger] t.1[j]),
{
    let tb = tensor_bytes(t);
    let r = t.0.len() as int;
    lemma_tensor_bytes_len(t);
    lemma_dims_bytes_len(t.0);
    lemma_words_bytes_len(t.1);
    assert(b.subrange(pos, pos + 4) =~= tb.subrange(0, 4));
    assert(tb.subrange(0, 4) =~= le32(t.0.len() as u32));
    assert forall|i: int| 0 <= i < t.0.len() implies b.subrange(pos + 4 + 8 * i, pos + 4 + 8 * i + 8) == le64(
        #[trigger] t.0[i] as u64,
    ) by {
        lemma_dims_bytes_at(t.0, i);
        assert(b.subrange(pos + 4 + 8 * i, pos + 4 + 8 * i + 8) =~= tb.subrange(4 + 8 * i, 4 + 8 * i + 8));
        assert(tb.subrange(4 + 8 * i, 4 + 8 * i + 8) =~= dims_bytes(t.0).subrange(8 * i, 8 * i + 8));
    }
    assert forall|j: int| 0 <= j < t.1.len() implies b.subrange(
        pos + 4 + 8 * t.0.len() + 4 * j,
        pos + 4 + 8 * t.0.len() + 4 * j + 4,
    ) == le32(#[trigger] t.1[j]) by {
        lemma_words_bytes_at(t.1, j);
        assert(b.subrange(pos + 4 + 8 * r + 4 * j, pos + 4 + 8 * r + 4 * j + 4) =~= tb.subrange(
            4 + 8 * r + 4 * j,
            4 + 8 * r + 4 * j + 4,
        ));
        assert(tb.subrange(4 + 8 * r + 4 * j, 4 + 8 * r + 4 * j + 4) =~= words_bytes(t.1).subrange(4 * j, 4 * j + 4));
    }
}

/// Reads the tensor stored at `pos`: its shape, its words and the position after it.
///
/// Any storable tensor whose encoding is at `pos` is the one returned, and a tensor is
/// returned only when its encoding is there.
fn read_tensor(b: &[u8], pos: usize) -> (r: Option<(Vec<usize>, Vec<u32>, usize)>)
    requires
        pos <= b@.len(),
    ensures
        r matches Some((shape, words, next)) ==> {
            &&& tensor_at(b@, pos as int, (shape@, words@))
            &&& next == pos + tensor_bytes((shape@, words@)).len()
        },
        forall|t: (Seq<usize>, Seq<u32>)| #[trigger] tensor_at(b@, pos as int, t) ==> (r matches Some((shape, words, _))
            && (shape@, words@) == t),
{
    let rank = match read_u32(b, pos) {
        Some(x) => x,
        None => {
            proof {
                assert forall|t: (Seq<usize>, Seq<u32>)| #[trigger] tensor_at(b@, pos as int, t) implies false by {
                    lemma_tensor_at_parts(b@, pos as int, t);
                }
            }
            return None;
        },
    };
    proof {
        assert forall|t: (Seq<usize>, Seq<u32>)| #[trigger] tensor_at(b@, pos as int, t) implies t.0.len() == rank by {
            lemma_tensor_at_parts(b@, pos as int, t);
            lemma_le32_inj(t.0.len() as u32, rank);
        }
    }
    let blen = b.len();
    let mut dims: Vec<usize> = Vec::new();
    let mut p: usize = pos + 4;
    while dims.len() < rank as usize
        invariant
            blen == b@.len(),
            pos + 4 <= b@.len(),
            dims.len() <= rank,
            p == pos + 4 + 8 * dims.len(),
            p <= b@.len(),
            le32(rank) == b@.subrange(pos as int, pos + 4),
            b@.subrange(pos + 4, p as int) == dims_bytes(dims@),
            forall|t: (Seq<usize>, Seq<u32>)| #[trigger] tensor_at(b@, pos as int, t) ==> t.0.len() == rank
                && t.0.take(dims.len() as int) == dims@,
        decreases rank - dims.len(),
    {
        let d = match read_u64(b, p) {
            Some(d) => d,
            None => {
                proof {
                    assert forall|t: (Seq<usize>, Seq<u32>)| #[trigger] tensor_at(b@, pos as int, t) implies false by {
                        lemma_tensor_at_parts(b@, pos as int, t);
                    }
                }
                return None;
            },
        };
        proof {
            assert forall|t: (Seq<usize>, Seq<u32>)| #[trigger] tensor_at(b@, pos as int, t) implies d == t.0[dims.len() as int] as u64 by {
                lemma_tensor_at_parts(b@, pos as int, t);
                assert(b@.subrange(p as int, p + 8) == le64(t.0[dims.len() as int] as u64));
                lemma_le64_inj(d, t.0[dims.len() as int] as u64);
            }
        }
        if d > usize::MAX as u64 {
            proof {
                assert forall|t: (Seq<usize>, Seq<u32>)| #[trigger] tensor_at(b@, pos as int, t) implies false by {}
            }
            return None;
        }
        let ghost before = dims@;
        dims.push(d as usize);
        proof {
            lemma_dims_bytes_push(before, d as usize);
            assert(b@.subrange(pos + 4, p + 8) =~= b@.subrange(pos + 4, p as int) + b@.subrange(p as int, p + 8));
            assert forall|t: (Seq<usize>, Seq<u32>)| #[trigger] tensor_at(b@, pos as int, t) implies t.0.len() == rank
                && t.0.take(dims.len() as int) == dims@ by {
                assert(t.0.take(before.len() as int) == before);
                assert(t.0.take(dims.len() as int) =~= t.0.take(before.len() as int).push(t.0[before.len() as int]));
            }
        }
        p = p + 8;
    }
    proof {
        assert forall|t: (Seq<usize>, Seq<u32>)| #[trigger] tensor_at(b@, pos as int, t) implies t.0 == dims@ by {
            assert(t.0.take(dims.len() as int) == dims@);
            assert(t.0 =~= t.0.take(dims.len() as int));
        }
    }
    let mut len: usize = 1;
    let mut j: usize = 0;
    assert(dims@.take(0) =~= Seq::<usize>::empty());
    while j < dims.len()
        invariant
            blen == b@.len(),
            pos + 4 <= b@.len(),
            dims.len() == rank,
            p == pos + 4 + 8 * dims.len(),
            p <= b@.len(),
            le32(rank) == b@.subrange(pos as int, pos + 4),
            b@.subrange(pos + 4, p as int) == dims_bytes(dims@),
            forall|t: (Seq<usize>, Seq<u32>)| #[trigger] tensor_at(b@, pos as int, t) ==> t.0 == dims@,
            j <= dims.len(),
            len == shape_product(dims@.take(j as int)),
            forall|jj: int| 0 <= jj <= j ==> #[trigger] shape_product(dims@.take(jj)) <= usize::MAX,
        decreases dims.len() - j,
    {
        proof {
            lemma_shape_product_take_step(dims@, j as int);
        }
        match len.checked_mul(dims[j]) {
            Some(v) => {
                len = v;
            },
            None => {
                proof {
                    assert forall|t: (Seq<usize>, Seq<u32>)| #[trigger] tensor_at(b@, pos as int, t) implies false by {
                        assert(shape_product(t.0.take(j + 1)) <= usize::MAX);
                    }
                }
                return None;
            },
        }
        j = j + 1;
    }
    assert(dims@.take(dims.len() as int) =~= dims@);
    assert(shape_fits(dims@));
    let ghost dims_end = p;
    let mut words: Vec<u32> = Vec::new();
    assert(words@ =~= Seq::<u32>::empty());
    proof {
        assert forall|t: (Seq<usize>, Seq<u32>)| #[trigger] tensor_at(b@, pos as int, t) implies t.0 == dims@ && t.1.len() == len
            && t.1.take(0) == words@ by {
            assert(t.1.take(0) =~= words@);
        }
    }
    while words.len() < len
        invariant
            blen == b@.len(),
            le32(rank) == b@.subrange(pos as int, pos + 4),
            b@.subrange(pos + 4, dims_end as int) == dims_bytes(dims@),
            shape_fits(dims@),
            pos + 4 <= b@.len(),
            dims_end == pos + 4 + 8 * dims.len(),
            dims.len() == rank,
            words.len() <= len,
            p == dims_end + 4 * words.len(),
            p <= b@.len(),
            b@.subrange(dims_end as int, p as int) == words_bytes(words@),
            forall|t: (Seq<usize>, Seq<u32>)| #[trigger] tensor_at(b@, pos as int, t) ==> t.0 == dims@ && t.1.len() == len
                && t.1.take(words.len() as int) == words@,
            len == shape_product(dims@),
        decreases len - words.len(),
    {
        let w = match read_u32(b, p) {
            Some(w) => w,
            None => {
                proof {
                    assert forall|t: (Seq<usize>, Seq<u32>)| #[trigger] tensor_at(b@, pos as int, t) implies false by {
                        lemma_tensor_at_parts(b@, pos as int, t);
                    }
                }
                return None;
            },
        };
        let ghost before = words@;
        proof {
            assert forall|t: (Seq<usize>, Seq<u32>)| #[trigger] tensor_at(b@, pos as int, t) implies w == t.1[before.len() as int] by {
                lemma_tensor_at_parts(b@, pos as int, t);
                assert(b@.subrange(p as int, p + 4) == le32(t.1[before.len() as int]));
                lemma_le32_inj(w, t.1[before.len() as int]);
            }
        }
        words.push(w);
        proof {
            lemma_words_bytes_push(before, w);
            assert(b@.subrange(dims_end as int, p + 4) =~= b@.subrange(dims_end as int, p as int) + b@.subrange(p as int, p + 4));
            assert forall|t: (Seq<usize>, Seq<u32>)| #[trigger] tensor_at(b@, pos as int, t) implies t.0 == dims@ && t.1.len()
                == len && t.1.take(words.len() as int) == words@ by {
                assert(t.1.take(before.len() as int) == before);
                assert(t.1.take(words.len() as int) =~= t.1.take(before.len() as int).push(t.1[before.len() as int]));
            }
        }
        p = p + 4;
    }
    proof {
        let t = (dims@, words@);
        assert(dims.len() as u32 == rank);
        lemma_tensor_bytes_len(t);
        assert(b@.subrange(pos as int, p as int) =~= b@.subrange(pos as int, pos + 4) + b@.subrange(pos + 4, dims_end as int)
            + b@.subrange(dims_end as int, p as int));
        assert(tensor_at(b@, pos as int, t));
        assert forall|t2: (Seq<usize>, Seq<u32>)| #[trigger] tensor_at(b@, pos as int, t2) implies t2 == t by {
            assert(t2.1.take(words.len() as int) == words@);
            assert(t2.1 =~= words@);
        }
    }
    Some((dims, words, p))
}

/// Two storable tensors encoded at the same position are equal.
proof fn lemma_tensor_at_unique(b: Seq<u8>, pos: int, t1: (Seq<usize>, Seq<u32>), t2: (Seq<usize>, Seq<u32>))
    requires
        0 <= pos,
        tensor_at(b, pos, t1),
        tensor_at(b, pos, t2),
    ensures
        t1 == t2,
{
    lemma_tensor_at_parts(b, pos, t1);
    lemma_tensor_at_parts(b, pos, t2);
    lemma_le32_inj(t1.0.len() as u32, t2.0.len() as u32);
    assert forall|i: int| 0 <= i < t1.0.len() implies t1.0[i] == t2.0[i] by {
        assert(b.subrange(pos + 4 + 8 * i, pos + 4 + 8 * i + 8) == le64(t1.0[i] as u64));
        assert(b.subrange(pos + 4 + 8 * i, pos + 4 + 8 * i + 8) == le64(t2.0[i] as u64));
        lemma_le64_inj(t1.0[i] as u64, t2.0[i] as u64);
    }
    assert(t1.0 =~= t2.0);
    assert forall|j: int| 0 <= j < t1.1.len() implies t1.1[j] == t2.1[j] by {
        lemma_le32_inj(t1.1[j], t2.1[j]);
    }
    assert(t1.1 =~= t2.1);
}

/// The first `j` tensors' encodings are a prefix of all the tensors' encodings.
proof fn lemma_tensors_bytes_prefix(ts: Seq<(Seq<usize>, Seq<u32>)>, j: int)
    requires
        0 <= j <= ts.len(),
    ensures
        tensors_bytes(ts.take(j)).len() <= tensors_bytes(ts).len(),
        tensors_bytes(ts).take(tensors_bytes(ts.take(j)).len() as int) == tensors_bytes(ts.take(j)),
    decreases ts.len(),
{
    if j == ts.len() {
        assert(ts.take(j) =~= ts);
    } else {
        lemma_tensors_bytes_prefix(ts.drop_last(), j);
        assert(ts.drop_last().take(j) =~= ts.take(j));
        let a = tensors_bytes(ts.take(j));
        let d = tensors_bytes(ts.drop_last());
        assert(tensors_bytes(ts) == d + tensor_bytes(ts.last()));
        assert((d + tensor_bytes(ts.last())).take(a.len() as int) =~= d.take(a.len() as int));
    }
}

/// Tensor `k` of an encoded list sits right after the first `k` tensors' encodings.
proof fn lemma_encoded_tensor_at(ts: Seq<(Seq<usize>, Seq<u32>)>, b: Seq<u8>, k: int)
    requires
        encodes(ts, b),
        0 <= k < ts.len(),
    ensures
        tensor_at(b, 9 + tensors_bytes(ts.take(k)).len() as int, ts[k]),
{
    let a = tensors_bytes(ts.take(k));
    let al = a.len() as int;
    let t = ts[k];
    let l = tensor_bytes(t).len() as int;
    lemma_tensors_bytes_prefix(ts, k + 1);
    lemma_tensors_bytes_push(ts.take(k), t);
    assert(ts.take(k).push(t) =~= ts.take(k + 1));
    let cb = checkpoint_bytes(ts);
    let header = magic() + seq![CHECKPOINT_VERSION] + le32(ts.len() as u32);
    assert(header.len() == 9);
    assert(cb == header + tensors_bytes(ts));
    assert(stored_ok(ts[k]));
    assert(b.subrange(9 + al, 9 + al + l) =~= cb.subrange(9 + al, 9 + al + l)) by {
        assert(b.take(cb.len() as int) == cb);
    }
    assert(cb.subrange(9 + al, 9 + al + l) =~= tensors_bytes(ts).subrange(al, al + l));
    assert(tensors_bytes(ts.take(k + 1)) == a + tensor_bytes(t));
    assert(tensors_bytes(ts.take(k + 1)).len() == al + l);
    assert(9 + al + l <= b.len());
    assert(tensors_bytes(ts).subrange(al, al + l) =~= tensors_bytes(ts.take(k + 1)).subrange(al, al + l)) by {
        assert(tensors_bytes(ts).take(tensors_bytes(ts.take(k + 1)).len() as int) == tensors_bytes(ts.take(k + 1)));
    }
    assert(tensors_bytes(ts.take(k + 1)).subrange(al, al + l) =~= tensor_bytes(t));
}

/// The header of an encoded list: magic, version and the tensor count.
proof fn lemma_encoded_header(ts: Seq<(Seq<usize>, Seq<u32>)>, b: Seq<u8>)
    requires
        encodes(ts, b),
    ensures
        9 <= b.len(),
        b.take(4) == magic(),
        b[4] == CHECKPOINT_VERSION,
        b.subrange(5, 9) == le32(ts.len() as u32),
{
    let cb = checkpoint_bytes(ts);
    assert(b.take(cb.len() as int) == cb);
    assert(b.take(4) =~= cb.take(4));
    assert(b.subrange(5, 9) =~= cb.subrange(5, 9));
    assert(b[4] == cb[4]);
}

/// Two lists encoded at the start of `b` agree on their first `k` tensors.
proof fn lemma_encodes_agree(a: Seq<(Seq<usize>, Seq<u32>)>, c: Seq<(Seq<usize>, Seq<u32>)>, b: Seq<u8>, k: int)
    requires
        encodes(a, b),
        encodes(c, b),
        0 <= k <= a.len(),
        a.len() == c.len(),
    ensures
        a.take(k) == c.take(k),
    decreases k,
{
    if k > 0 {
        lemma_encodes_agree(a, c, b, k - 1);
        lemma_encoded_tensor_at(a, b, k - 1);
        lemma_encoded_tensor_at(c, b, k - 1);
        lemma_tensor_at_unique(b, 9 + tensors_bytes(a.take(k - 1)).len() as int, a[k - 1], c[k - 1]);
        assert(a.take(k) =~= a.take(k - 1).push(a[k - 1]));
        assert(c.take(k) =~= c.take(k - 1).push(c[k - 1]));
    }
}

/// At most one list of tensors is encoded at the start of any byte string.
proof fn lemma_encodes_unique(a: Seq<(Seq<usize>, Seq<u32>)>, c: Seq<(Seq<usize>, Seq<u32>)>, b: Seq<u8>)
    requires
        encodes(a, b),
        encodes(c, b),
    ensures
        a == c,
{
    lemma_encoded_header(a, b);
    lemma_encoded_header(c, b);
    lemma_le32_inj(a.len() as u32, c.len() as u32);
    lemma_encodes_agree(a, c, b, a.len() as int);
    assert(a.take(a.len() as int) =~= a);
    assert(c.take(c.len() as int) =~= c);
}

/// Reading a checkpoint gives back exactly the storable tensors that were written, whatever
/// bytes follow it.
pub proof fn lemma_checkpoint_roundtrip(ts: Seq<(Seq<usize>, Seq<u32>)>, rest: Seq<u8>)
    requires
        ts.len() <= u32::MAX,
        forall|k: int| 0 <= k < ts.len() ==> stored_ok(#[trigger] ts[k]),
    ensures
        decode_spec(checkpoint_bytes(ts) + rest) == Ok::<Seq<(Seq<usize>, Seq<u32>)>, CheckpointError>(ts),
{
    let b = checkpoint_bytes(ts) + rest;
    assert(b.take(checkpoint_bytes(ts).len() as int) =~= checkpoint_bytes(ts));
    assert(encodes(ts, b));
    lemma_encoded_header(ts, b);
    let c = choose|c: Seq<(Seq<usize>, Seq<u32>)>| encodes(c, b);
    lemma_encodes_unique(ts, c, b);
}

/// Reads a checkpoint: the tensors (shape and element bit patterns) that `bytes` starts
/// with, after checking the magic and the version; bytes after the last tensor are ignored.
pub fn decode(bytes: &[u8]) -> (r: Result<Vec<(Vec<usize>, Vec<u32>)>, CheckpointError>)
    ensures
        match r {
            Ok(ts) => decode_spec(bytes@) == Ok::<Seq<(Seq<usize>, Seq<u32>)>, CheckpointError>(stored_views(ts@)),
            Err(e) => decode_spec(bytes@) == Err::<Seq<(Seq<usize>, Seq<u32>)>, CheckpointError>(e),
        },
{
    let ghost b = bytes@;
    let blen = bytes.len();
    if blen < 4 {
        return Err(CheckpointError::Truncated);
    }
    if bytes[0] != 0x43u8 || bytes[1] != 0x4bu8 || bytes[2] != 0x31u8 || bytes[3] != 0x30u8 {
        proof {
            if b.take(4) == magic() {
                assert(b.take(4)[0] == b[0]);
                assert(b.take(4)[1] == b[1]);
                assert(b.take(4)[2] == b[2]);
                assert(b.take(4)[3] == b[3]);
            }
        }
        return Err(CheckpointError::BadMagic);
    }
    assert(b.take(4) =~= magic());
    if blen < 5 {
        return Err(CheckpointError::Truncated);
    }
    if bytes[4] != CHECKPOINT_VERSION {
        return Err(CheckpointError::UnsupportedVersion { version: bytes[4] });
    }
    let count = match read_u32(bytes, 5) {
        Some(c) => c,
        None => {
            proof {
                assert forall|ts: Seq<(Seq<usize>, Seq<u32>)>| !#[trigger] encodes(ts, b) by {
                    if encodes(ts, b) {
                        lemma_encoded_header(ts, b);
                    }
                }
            }
            return Err(CheckpointError::Truncated);
        },
    };
    proof {
        assert forall|ts: Seq<(Seq<usize>, Seq<u32>)>| #[trigger] encodes(ts, b) implies ts.len() == count by {
            lemma_encoded_header(ts, b);
            lemma_le32_inj(ts.len() as u32, count);
        }
    }
    let mut out: Vec<(Vec<usize>, Vec<u32>)> = Vec::new();
    let mut pos: usize = 9;
    assert(stored_views(out@) =~= Seq::<(Seq<usize>, Seq<u32>)>::empty());
    assert(b.subrange(9, 9) =~= Seq::<u8>::empty());
    while out.len() < count as usize
        invariant
            b == bytes@,
            blen == b.len(),
            9 <= pos <= b.len(),
            b.take(4) == magic(),
            b[4] == CHECKPOINT_VERSION,
            le32(count) == b.subrange(5, 9),
            out.len() <= count,
            forall|j: int| 0 <= j < out.len() ==> stored_ok(#[trigger] stored_views(out@)[j]),
            pos == 9 + tensors_bytes(stored_views(out@)).len(),
            b.subrange(9, pos as int) == tensors_bytes(stored_views(out@)),
            forall|ts: Seq<(Seq<usize>, Seq<u32>)>| #[trigger] encodes(ts, b) ==> ts.len() == count && ts.take(
                out.len() as int,
            ) == stored_views(out@),
        decreases count - out.len(),
    {
        let ghost k = out.len() as int;
        let ghost done = stored_views(out@);
        match read_tensor(bytes, pos) {
            Some((shape, words, next)) => {
                let ghost t = (shape@, words@);
                proof {
                    lemma_tensor_bytes_len(t);
                    assert forall|ts: Seq<(Seq<usize>, Seq<u32>)>| #[trigger] encodes(ts, b) implies ts[k] == t by {
                        lemma_encoded_tensor_at(ts, b, k);
                        lemma_tensor_at_unique(b, pos as int, ts[k], t);
                    }
                }
                out.push((shape, words));
                proof {
                    assert(stored_views(out@) =~= done.push(t));
                    lemma_tensors_bytes_push(done, t);
                    assert(b.subrange(9, next as int) =~= b.subrange(9, pos as int) + b.subrange(pos as int, next as int));
                    assert forall|ts: Seq<(Seq<usize>, Seq<u32>)>| #[trigger] encodes(ts, b) implies ts.len() == count
                        && ts.take(out.len() as int) == stored_views(out@) by {
                        assert(ts.take(k) == done);
                        assert(ts[k] == t);
                        assert(ts.take(k + 1) =~= ts.take(k).push(ts[k]));
                    }
                    assert forall|j: int| 0 <= j < out.len() implies stored_ok(#[trigger] stored_views(out@)[j]) by {
                        if j < k {
                            assert(stored_views(out@)[j] == done[j]);
                        }
                    }
                }
                pos = next;
            },
            None => {
                proof {
                    assert forall|ts: Seq<(Seq<usize>, Seq<u32>)>| !#[trigger] encodes(ts, b) by {
                        if encodes(ts, b) {
                            lemma_encoded_tensor_at(ts, b, k);
                        }
                    }
                }
                return Err(CheckpointError::Truncated);
            },
        }
    }
    proof {
        let vs = stored_views(out@);
        let cb = checkpoint_bytes(vs);
        assert(vs.len() == count);
        assert(cb.len() == pos);
        assert(b.take(pos as int) =~= b.take(4) + seq![b[4]] + b.subrange(5, 9) + b.subrange(9, pos as int));
        assert(b.take(cb.len() as int) =~= cb);
        assert(encodes(vs, b));
        let c = choose|c: Seq<(Seq<usize>, Seq<u32>)>| encodes(c, b);
        lemma_encodes_unique(vs, c, b);
    }
    Ok(out)
}

} // verus!
