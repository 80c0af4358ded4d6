//! Signals and the sources of training examples.
use vstd::prelude::*;
use crate::ieee::{integer_pattern, from_byte};

verus! {

/// An ordered sequence of numbers: the input of a network, its output, or
/// the desired output of a training example.
pub type Signal = Vec<u32>;

/// A source of training examples.
///
/// No bounds are checked: an index is below the number of examples.
///
/// The four descriptions say what the three methods give. An implementation
/// states its own; one that states none keeps the ones here, which say
/// nothing about what it holds.
pub trait Dataset {
    /// The source is in order.
    open spec fn valid(&self) -> bool {
        true
    }

    /// The number of examples.
    open spec fn count(&self) -> nat {
        arbitrary()
    }

    /// The input of an example.
    open spec fn input(&self, image_index: int) -> Seq<u32> {
        arbitrary()
    }

    /// The desired output of an example.
    open spec fn output(&self, image_index: int) -> Seq<u32> {
        arbitrary()
    }

    /// Replaces `signal` by the input of example `image_index`.
    fn copy_training_input_signal(&self, image_index: usize, signal: &mut Signal)
        requires
            self.valid(),
            image_index < self.count(),
        ensures
            final(signal)@ == self.input(image_index as int),
    ;

    /// Replaces `signal` by the desired output of example `image_index`.
    fn copy_training_output_signal(&self, image_index: usize, signal: &mut Signal)
        requires
            self.valid(),
            image_index < self.count(),
        ensures
            final(signal)@ == self.output(image_index as int),
    ;

    /// The number of examples.
    fn nimages(&self) -> (n: usize)
        requires
            self.valid(),
        ensures
            n == self.count(),
    ;
}

/// The numbers that equal the bytes, one by one.
pub open spec fn patterns_of(bytes: Seq<u8>) -> Seq<u32> {
    Seq::new(bytes.len(), |i: int| integer_pattern(bytes[i] as nat))
}

/// Quick initialisation of a signal from a sequence of values.
pub trait CopyConvertIntoSignal {
    /// The values as numbers.
    open spec fn as_signal(&self) -> Seq<u32> {
        arbitrary()
    }

    /// Replaces `signal` by the values, each converted to a number.
    fn copy_convert_into_signal(&self, signal: &mut Signal)
        ensures
            final(signal)@ == self.as_signal(),
    ;
}

impl CopyConvertIntoSignal for [u8] {
    open spec fn as_signal(&self) -> Seq<u32> {
        patterns_of(self@)
    }

    fn copy_convert_into_signal(&self, signal: &mut Signal) {
        signal.clear();
        let mut i: usize = 0;
        while i < self.len()
            invariant
                i <= self@.len(),
                signal@.len() == i,
                forall|k: int| 0 <= k < i ==> signal@[k] == integer_pattern(self@[k] as nat),
            decreases self@.len() - i,
        {
            signal.push(from_byte(self[i]));
            i += 1;
        }
        proof {
            assert(signal@ =~= patterns_of(self@));
        }
    }
}

} // verus!
