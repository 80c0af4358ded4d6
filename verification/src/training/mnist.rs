//! Training on a corpus of handwritten digits: images of 28 by 28 bytes,
//! each with the digit that it shows.
use vstd::prelude::*;
use vstd::slice::slice_subrange;
use crate::ieee::{ZERO, ONE};
use crate::network::{Network, well_formed, same_shape, geometry_of};
use crate::algorithm::func::Operation;
use crate::algorithm::forward::ForwardPropagation;
use crate::algorithm::backward::BackPropagation;
use crate::algorithm::driver::{Session, trained_through, tested_through, train_network_back_propagation,
    test_network_forward_propagation};
use crate::ut::data::{Dataset, Signal, CopyConvertIntoSignal, patterns_of};

verus! {

/// The side of an image.
pub const IMG_SIZE: usize = 28;

/// The number of bytes of an image.
pub const IMG_SIZE_BYTES: usize = 784;

/// The number of digits.
pub const N_CLASSES: usize = 10;

/// The corpus: images one after the other, and one label per image.
pub struct Mnist {
    /// The training images.
    pub trn_img: Vec<u8>,
    /// The digit of each training image.
    pub trn_lbl: Vec<u8>,
    /// The test images.
    pub tst_img: Vec<u8>,
    /// The digit of each test image.
    pub tst_lbl: Vec<u8>,
}

/// A training session on the corpus that starts at image `base_offset`, so
/// that it can be taken up again later.
pub struct MnistTrainingState<'a> {
    /// The corpus.
    pub dataset: &'a Mnist,
    /// The image at which the session starts.
    pub base_offset: usize,
}

/// The desired output for a digit: one at the place of the digit, zero
/// elsewhere.
pub open spec fn one_hot(digit: int) -> Seq<u32> {
    Seq::new(
        N_CLASSES as nat,
        |k: int|
            if k == digit {
                ONE
            } else {
                ZERO
            },
    )
}

/// The training part of the corpus is in order: every image has its label
/// and every label is a digit.
pub open spec fn training_set_valid(mnist: Mnist) -> bool {
    &&& mnist.trn_img@.len() == mnist.trn_lbl@.len() * IMG_SIZE_BYTES
    &&& forall|i: int| 0 <= i < mnist.trn_lbl@.len() ==> (#[trigger] mnist.trn_lbl@[i]) < N_CLASSES
}

impl<'a> MnistTrainingState<'a> {
    /// The place in the corpus of the image at `offset` in the session.
    pub fn offset_as_relative(&self, offset: usize) -> (place: usize)
        requires
            offset + self.base_offset <= usize::MAX,
        ensures
            place == offset + self.base_offset,
    {
        return offset + self.base_offset;
    }
}

impl<'a> Dataset for MnistTrainingState<'a> {
    open spec fn valid(&self) -> bool {
        training_set_valid(*self.dataset) && self.base_offset <= self.dataset.trn_lbl@.len()
    }

    open spec fn count(&self) -> nat {
        (self.dataset.trn_lbl@.len() - self.base_offset) as nat
    }

    open spec fn input(&self, image_index: int) -> Seq<u32> {
        patterns_of(
            self.dataset.trn_img@.subrange(
                (image_index + self.base_offset) * IMG_SIZE_BYTES,
                (image_index + self.base_offset) * IMG_SIZE_BYTES + IMG_SIZE_BYTES,
            ),
        )
    }

    open spec fn output(&self, image_index: int) -> Seq<u32> {
        one_hot(self.dataset.trn_lbl@[image_index + self.base_offset] as int)
    }

    fn copy_training_input_signal(&self, image_index: usize, signal: &mut Signal) {
        proof {
            assert(self.dataset.trn_lbl.len() == self.dataset.trn_lbl@.len());
            assert(self.dataset.trn_img.len() == self.dataset.trn_img@.len());
        }
        let place = self.offset_as_relative(image_index);
        proof {
            assert(place * IMG_SIZE_BYTES + IMG_SIZE_BYTES <= self.dataset.trn_lbl@.len() * IMG_SIZE_BYTES)
                by (nonlinear_arith)
                requires
                    place < self.dataset.trn_lbl@.len(),
            ;
        }
        let start_position = place * IMG_SIZE_BYTES;
        let image = slice_subrange(self.dataset.trn_img.as_slice(), start_position, start_position + IMG_SIZE_BYTES);
        image.copy_convert_into_signal(signal);
    }

    /// Output of 10 numbers, each standing for a digit.
    fn copy_training_output_signal(&self, image_index: usize, signal: &mut Signal) {
        proof {
            assert(self.dataset.trn_lbl.len() == self.dataset.trn_lbl@.len());
        }
        let position = self.dataset.trn_lbl[self.offset_as_relative(image_index)] as usize;
        signal.clear();
        let mut k: usize = 0;
        while k < N_CLASSES
            invariant
                k <= N_CLASSES,
                signal@.len() == k,
                forall|j: int| 0 <= j < k ==> signal@[j] == ZERO,
            decreases N_CLASSES - k,
        {
            signal.push(ZERO);
            k += 1;
        }
        signal[position] = ONE;
        proof {
            assert(signal@ =~= one_hot(position as int));
        }
    }

    fn nimages(&self) -> (n: usize) {
        self.dataset.trn_lbl.len() - self.base_offset
    }
}

/// Trains the network on the training images from `ibegin_training_image`
/// on, one after the other.
pub fn train<
    Act: Fn(u32) -> u32,
    Ar: Fn(Operation, u32, u32) -> u32,
    Cd: Fn(u32, u32) -> u32,
    Ad: Fn(u32) -> u32,
    Ar2: Fn(Operation, u32, u32) -> u32,
    P: Fn(usize),
>(
    net: &mut Network,
    mnist: &Mnist,
    ibegin_training_image: usize,
    forward: &ForwardPropagation<Act, Ar>,
    backward: &mut BackPropagation<Cd, Ad, Ar2>,
    progress: &P,
)
    requires
        forward.total(),
        old(backward).total(),
        forall|i: usize| #[trigger] call_requires(*progress, (i,)),
        training_set_valid(*mnist),
        ibegin_training_image <= mnist.trn_lbl@.len(),
        well_formed(old(net)@),
        old(net)@.len() > 0,
        old(net)@[0].a.len() == IMG_SIZE_BYTES,
        old(net)@[old(net)@.len() - 1].a.len() == N_CLASSES,
        well_formed(old(backward).cache()),
        geometry_of(old(backward).cache()) == geometry_of(old(net)@),
    ensures
        final(backward).same_setup(old(backward)),
        well_formed(final(backward).cache()),
        geometry_of(final(backward).cache()) == geometry_of(old(net)@),
        well_formed(final(net)@),
        same_shape(old(net)@, final(net)@),
        trained_through(
            Session {
                arithmetic: forward.arithmetic(),
                activation: forward.activation(),
                calculus: old(backward).calculus(),
                rate: old(backward).rate(),
            },
            MnistTrainingState { dataset: mnist, base_offset: ibegin_training_image },
            (mnist.trn_lbl@.len() - ibegin_training_image) as nat,
            old(net)@,
            final(net)@,
        ),
{
    let mnist_dataset = MnistTrainingState { dataset: mnist, base_offset: ibegin_training_image };
    train_network_back_propagation(net, forward, backward, &mnist_dataset, progress);
}

/// Runs the network on every training image and reports, for each, the
/// digit that the image shows and the digit that the network makes of it.
/// After each image `report` is handed the desired output and the factual
/// one.
pub fn test<Act: Fn(u32) -> u32, Ar: Fn(Operation, u32, u32) -> u32, R: Fn(&Signal, &Signal)>(
    net: &mut Network,
    mnist: &Mnist,
    forward: &ForwardPropagation<Act, Ar>,
    report: &R,
) -> (readings: Vec<(usize, usize)>)
    requires
        forward.total(),
        forall|expected: &Signal, actual: &Signal| #[trigger] call_requires(*report, (expected, actual)),
        training_set_valid(*mnist),
        well_formed(old(net)@),
        old(net)@.len() > 1,
        old(net)@[0].a.len() == IMG_SIZE_BYTES,
        old(net)@[old(net)@.len() - 1].a.len() == N_CLASSES,
    ensures
        well_formed(final(net)@),
        same_shape(old(net)@, final(net)@),
        tested_through(
            forward.arithmetic(),
            forward.activation(),
            MnistTrainingState { dataset: mnist, base_offset: 0 },
            mnist.trn_lbl@.len(),
            old(net)@,
            final(net)@,
            readings@,
        ),
{
    let mnist_dataset = MnistTrainingState { dataset: mnist, base_offset: 0 };
    test_network_forward_propagation(net, forward, &mnist_dataset, report)
}

} // verus!
