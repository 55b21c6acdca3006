//! Datasets: the synthetic line-drawing set and the CIFAR-10 binary record format.
use vstd::prelude::*;
use crate::compute::tensor::{Tensor, shape_vec4, lemma_shape4, shape_product, shape_fits};

verus! {

pub const CIFAR10_CLASSES: usize = 10;
pub const CIFAR10_CHANNELS: usize = 3;
pub const CIFAR10_HEIGHT: usize = 32;
pub const CIFAR10_WIDTH: usize = 32;
/// Bytes of pixel data per image: three 32x32 channel planes.
pub const CIFAR10_IMAGE_LEN: usize = 3072;
/// Bytes per record: one label byte and the image.
pub const CIFAR10_RECORD_LEN: usize = 3073;

/// Samples with their class labels.
pub type Dataset<T> = Vec<(Tensor<T>, usize)>;

/// Whether pixel `p` (row-major in an 8x8 image) is drawn in synthetic sample `s`:
/// sample `3 * o + 0` is the vertical line in column `o + 2`, `3 * o + 1` the horizontal
/// line in row `o + 2`, and `3 * o + 2` the diagonal shifted right by `o` (wrapping).
pub open spec fn fake_pixel_on(s: int, p: int) -> bool {
    let offset = s / 3;
    let kind = s % 3;
    let row = p / 8;
    let col = p % 8;
    if kind == 0 {
        col == offset + 2
    } else if kind == 1 {
        row == offset + 2
    } else {
        col == (row + offset) % 8
    }
}

/// The synthetic images, pixel by pixel: with `o = s / 3` and pixel `p` at row `p / 8` and
/// column `p % 8`, a class-0 sample lights exactly column `o + 2`, a class-1 sample exactly row
/// `o + 2`, and a class-2 sample exactly the pixels whose column is `(row + o) % 8`. Each
/// image has eight lit pixels, and a class-0 image and a class-1 image always differ.
pub proof fn lemma_fake_images(s: int, p: int, s2: int)
    requires
        0 <= s < 12,
        0 <= p < 64,
        0 <= s2 < 12,
    ensures
        s % 3 == 0 ==> (fake_pixel_on(s, p) <==> p % 8 == s / 3 + 2),
        s % 3 == 1 ==> (fake_pixel_on(s, p) <==> p / 8 == s / 3 + 2),
        s % 3 == 2 ==> (fake_pixel_on(s, p) <==> p % 8 == (p / 8 + s / 3) % 8),
        s % 3 == 0 && s2 % 3 == 1 ==> {
            let q = (s2 / 3 + 2) * 8 + (s / 3 + 3) % 8;
            &&& 0 <= q < 64
            &&& !fake_pixel_on(s, q)
            &&& fake_pixel_on(s2, q)
        },
{
    if s % 3 == 0 && s2 % 3 == 1 {
        let q = (s2 / 3 + 2) * 8 + (s / 3 + 3) % 8;
        assert(q / 8 == s2 / 3 + 2 && q % 8 == (s / 3 + 3) % 8);
    }
}

/// One synthetic 8x8 image.
fn line_image<T: Copy>(s: usize, zero: T, one: T) -> (img: Vec<T>)
    requires
        s < 12,
    ensures
        img.len() == 64,
        forall|p: int| 0 <= p < 64 ==> #[trigger] img@[p] == if fake_pixel_on(s as int, p) { one } else { zero },
{
    let offset = s / 3;
    let kind = s % 3;
    let mut img: Vec<T> = Vec::with_capacity(64);
    let mut p: usize = 0;
    while p < 64
        invariant
            p <= 64,
            s < 12,
            offset == s / 3,
            kind == s % 3,
            img.len() == p,
            forall|q: int| 0 <= q < p ==> #[trigger] img@[q] == if fake_pixel_on(s as int, q) { one } else { zero },
        decreases 64 - p,
    {
        let row = p / 8;
        let col = p % 8;
        let on = if kind == 0 {
            col == offset + 2
        } else if kind == 1 {
            row == offset + 2
        } else {
            col == (row + offset) % 8
        };
        if on {
            img.push(one);
        } else {
            img.push(zero);
        }
        p = p + 1;
    }
    img
}

/// Twelve 1x8x8 images of vertical (class 0), horizontal (class 1) and diagonal (class 2)
/// lines at four offsets, drawn with `one` on a `zero` background.
pub fn make_fake_dataset<T: Copy>(zero: T, one: T) -> (data: Dataset<T>)
    ensures
        data.len() == 12,
        forall|s: int| 0 <= s < 12 ==> {
            let sample = #[trigger] data@[s];
            &&& sample.0.wf()
            &&& sample.0.shape@ == seq![1usize, 8, 8]
            &&& sample.1 == s % 3
            &&& forall|p: int|
                0 <= p < 64 ==> #[trigger] sample.0.data@[p] == if fake_pixel_on(s, p) { one } else { zero }
        },
{
    let mut data: Dataset<T> = Vec::new();
    let mut s: usize = 0;
    while s < 12
        invariant
            s <= 12,
            data.len() == s,
            forall|q: int| 0 <= q < s ==> {
                let sample = #[trigger] data@[q];
                &&& sample.0.wf()
                &&& sample.0.shape@ == seq![1usize, 8, 8]
                &&& sample.1 == q % 3
                &&& forall|p: int|
                    0 <= p < 64 ==> #[trigger] sample.0.data@[p] == if fake_pixel_on(q, p) { one } else { zero }
            },
        decreases 12 - s,
    {
        let img = line_image(s, zero, one);
        let mut shape: Vec<usize> = Vec::new();
        shape.push(1);
        shape.push(8);
        shape.push(8);
        proof {
            let sh = seq![1usize, 8, 8];
            assert(shape@ =~= sh);
            assert(sh.drop_last() =~= seq![1usize, 8]);
            assert(seq![1usize, 8].drop_last() =~= seq![1usize]);
            assert(seq![1usize].drop_last() =~= Seq::<usize>::empty());
            assert(shape_product(Seq::<usize>::empty()) == 1);
            assert(shape_product(seq![1usize]) == 1);
            assert(shape_product(seq![1usize, 8]) == 8);
            assert(shape_product(sh) == 64);
            assert forall|k: int| 0 <= k <= sh.len() implies #[trigger] shape_product(sh.take(k)) <= usize::MAX by {
                if k == 0 {
                    assert(sh.take(0) =~= Seq::<usize>::empty());
                } else if k == 1 {
                    assert(sh.take(1) =~= seq![1usize]);
                } else if k == 2 {
                    assert(sh.take(2) =~= seq![1usize, 8]);
                } else {
                    assert(sh.take(3) =~= sh);
                }
            }
        }
        data.push((Tensor { data: img, shape }, s % 3));
        s = s + 1;
    }
    data
}

/// Why a CIFAR-10 batch file was rejected.
#[derive(Clone, Copy, Debug, PartialEq, Eq)]
pub enum DatasetError {
    /// The byte count is not a whole number of records.
    LengthNotMultiple { len: usize },
    /// A record's label is not a class number.
    LabelOutOfRange { label: usize },
}

/// One CIFAR-10 record: its label and its 3072 channel-major pixel bytes.
pub struct RawSample {
    pub label: usize,
    pub pixels: Vec<u8>,
}

/// Number of whole records in a CIFAR-10 batch file.
pub open spec fn record_count(bytes: Seq<u8>) -> int {
    bytes.len() as int / 3073
}

/// Index of the first record (from `r` on) whose label is not a class number, or the
/// record count when there is none.
pub open spec fn first_bad_label_from(bytes: Seq<u8>, r: int) -> int
    decreases record_count(bytes) - r,
{
    if r >= record_count(bytes) || r < 0 {
        record_count(bytes)
    } else if bytes[r * 3073] >= 10 {
        r
    } else {
        first_bad_label_from(bytes, r + 1)
    }
}

/// Why the batch file `bytes` is rejected, if it is: a length that is not a whole number of
/// records, or else the first label that is not a class number.
pub open spec fn batch_error(bytes: Seq<u8>) -> Option<DatasetError> {
    if bytes.len() % 3073 != 0 {
        Some(DatasetError::LengthNotMultiple { len: bytes.len() as usize })
    } else if first_bad_label_from(bytes, 0) < record_count(bytes) {
        Some(DatasetError::LabelOutOfRange { label: bytes[first_bad_label_from(bytes, 0) * 3073] as usize })
    } else {
        None
    }
}

/// The labelled records of a batch file: label byte and the 3072 pixel bytes after it.
pub open spec fn records(bytes: Seq<u8>) -> Seq<(usize, Seq<u8>)> {
    Seq::new(
        record_count(bytes) as nat,
        |r: int| (bytes[r * 3073] as usize, bytes.subrange(r * 3073 + 1, r * 3073 + 3073)),
    )
}

/// Labels and pixels of parsed samples.
pub open spec fn sample_views(samples: Seq<RawSample>) -> Seq<(usize, Seq<u8>)> {
    Seq::new(samples.len(), |r: int| (samples[r].label, samples[r].pixels@))
}

proof fn lemma_first_bad_label(bytes: Seq<u8>, r: int)
    requires
        0 <= r <= record_count(bytes),
    ensures
        r <= first_bad_label_from(bytes, r) <= record_count(bytes),
        first_bad_label_from(bytes, r) < record_count(bytes) ==> bytes[first_bad_label_from(bytes, r) * 3073] >= 10,
        forall|q: int| r <= q < first_bad_label_from(bytes, r) ==> #[trigger] bytes[q * 3073] < 10,
    decreases record_count(bytes) - r,
{
    if r < record_count(bytes) && bytes[r * 3073] < 10 {
        lemma_first_bad_label(bytes, r + 1);
    }
}

/// Splits a CIFAR-10 batch file into labelled records.
pub fn parse_cifar10_batch(bytes: &[u8]) -> (res: Result<Vec<RawSample>, DatasetError>)
    ensures
        match batch_error(bytes@) {
            Some(e) => res == Err::<Vec<RawSample>, DatasetError>(e),
            None => res matches Ok(samples) && sample_views(samples@) == records(bytes@),
        },
{
    let len = bytes.len();
    if len % CIFAR10_RECORD_LEN != 0 {
        return Err(DatasetError::LengthNotMultiple { len });
    }
    let count = len / CIFAR10_RECORD_LEN;
    let mut samples: Vec<RawSample> = Vec::with_capacity(count);
    let mut r: usize = 0;
    while r < count
        invariant
            len == bytes@.len(),
            len % 3073 == 0,
            count == len / 3073,
            r <= count,
            samples.len() == r,
            forall|q: int| 0 <= q < r ==> #[trigger] bytes@[q * 3073] < 10,
            first_bad_label_from(bytes@, 0) == first_bad_label_from(bytes@, r as int),
            forall|q: int| 0 <= q < r ==> {
                let smp = #[trigger] samples@[q];
                &&& smp.label == bytes@[q * 3073]
                &&& smp.pixels@ == bytes@.subrange(q * 3073 + 1, q * 3073 + 3073)
            },
        decreases count - r,
    {
        proof {
            vstd::arithmetic::div_mod::lemma_fundamental_div_mod(len as int, 3073);
            assert(r * 3073 + 3073 <= len) by (nonlinear_arith)
                requires
                    r < count,
                    count == len / 3073,
                    len == 3073 * (len / 3073) + len % 3073,
                    len % 3073 == 0,
            ;
        }
        let base = r * CIFAR10_RECORD_LEN;
        let label = bytes[base] as usize;
        if label >= CIFAR10_CLASSES {
            proof {
                assert(first_bad_label_from(bytes@, r as int) == r);
            }
            return Err(DatasetError::LabelOutOfRange { label });
        }
        let mut pixels: Vec<u8> = Vec::with_capacity(CIFAR10_IMAGE_LEN);
        let mut k: usize = 0;
        while k < CIFAR10_IMAGE_LEN
            invariant
                k <= 3072,
                len == bytes@.len(),
                base + 3073 <= bytes@.len(),
                pixels@ == bytes@.subrange(base + 1, base + 1 + k),
            decreases 3072 - k,
        {
            pixels.push(bytes[base + 1 + k]);
            k = k + 1;
            assert(pixels@ =~= bytes@.subrange(base + 1, base + 1 + k));
        }
        samples.push(RawSample { label, pixels });
        r = r + 1;
    }
    proof {
        assert(sample_views(samples@) =~= records(bytes@));
    }
    Ok(samples)
}

/// Records of several batch files, file after file.
pub open spec fn all_records(files: Seq<Seq<u8>>) -> Seq<(usize, Seq<u8>)>
    decreases files.len(),
{
    if files.len() == 0 {
        Seq::empty()
    } else {
        all_records(files.drop_last()) + records(files.last())
    }
}

/// Index of the first rejected file, or the number of files when none is.
pub open spec fn first_bad_file_from(files: Seq<Seq<u8>>, i: int) -> int
    decreases files.len() - i,
{
    if i >= files.len() || i < 0 {
        files.len() as int
    } else if batch_error(files[i]) is Some {
        i
    } else {
        first_bad_file_from(files, i + 1)
    }
}

/// Views of byte buffers.
pub open spec fn file_views(files: Seq<Vec<u8>>) -> Seq<Seq<u8>> {
    Seq::new(files.len(), |i: int| files[i]@)
}

/// The CIFAR-10 training set (the records of `train_files`, in order) and test set (the
/// records of `test_file`); fails with the error of the first rejected file, training
/// files first.
pub fn load_cifar10(train_files: &[Vec<u8>], test_file: &[u8]) -> (res: Result<(Vec<RawSample>, Vec<RawSample>), DatasetError>)
    ensures
        ({
            let files = file_views(train_files@);
            let bad = first_bad_file_from(files, 0);
            if bad < files.len() {
                res == Err::<(Vec<RawSample>, Vec<RawSample>), DatasetError>(batch_error(files[bad]).unwrap())
            } else {
                match batch_error(test_file@) {
                    Some(e) => res == Err::<(Vec<RawSample>, Vec<RawSample>), DatasetError>(e),
                    None => res matches Ok((train, test)) && sample_views(train@) == all_records(files)
                        && sample_views(test@) == records(test_file@),
                }
            }
        }),
{
    let ghost files = file_views(train_files@);
    let mut train: Vec<RawSample> = Vec::new();
    let mut i: usize = 0;
    assert(files.take(0) =~= Seq::<Seq<u8>>::empty());
    assert(sample_views(train@) =~= Seq::<(usize, Seq<u8>)>::empty());
    while i < train_files.len()
        invariant
            i <= train_files.len(),
            files == file_views(train_files@),
            first_bad_file_from(files, 0) == first_bad_file_from(files, i as int),
            sample_views(train@) == all_records(files.take(i as int)),
        decreases train_files.len() - i,
    {
        let part = parse_cifar10_batch(train_files[i].as_slice());
        match part {
            Ok(samples) => {
                let ghost before = sample_views(train@);
                let mut samples = samples;
                let ghost added = sample_views(samples@);
                train.append(&mut samples);
                proof {
                    assert(files[i as int] == train_files@[i as int]@);
                    assert(files.take(i + 1).drop_last() =~= files.take(i as int));
                    assert(sample_views(train@) =~= before + added);
                    assert(first_bad_file_from(files, i as int) == first_bad_file_from(files, i + 1));
                }
            },
            Err(e) => {
                proof {
                    assert(files[i as int] == train_files@[i as int]@);
                    assert(first_bad_file_from(files, i as int) == i);
                }
                return Err(e);
            },
        }
        i = i + 1;
    }
    assert(files.take(train_files.len() as int) =~= files);
    let test = parse_cifar10_batch(test_file)?;
    Ok((train, test))
}

} // verus!
