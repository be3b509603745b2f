//! Random segment data for experiments.

use crate::text::string_of;
use crate::types::object::{data_chars, data_line};
use crate::types::segment::SegmentData;
use rand::Rng;
use vstd::prelude::*;

verus! {

/// The random number generator of `rand` that belongs to the running thread.
#[verifier::external_type_specification]
#[verifier::external_body]
pub struct ExThreadRng(rand::rngs::ThreadRng);

/// `rand::thread_rng` hands out the generator of the running thread. Nothing
/// is claimed of it. It unwinds where the system has no randomness to seed
/// it: a failure of the machine, of which the contract says nothing.
#[verifier::external_body]
fn generator() -> rand::rngs::ThreadRng {
    rand::thread_rng()
}

/// `Rng::gen_range` on the range from 0 up to but not including `n`. The
/// range must not be empty, or the call unwinds. The number drawn lies in
/// the range; which number it is depends on chance. The generator of the
/// thread seeds itself anew from the system now and then, and unwinds where
/// the system fails to give the seed: that is a failure of the machine, of
/// which the contract says nothing.
#[verifier::external_body]
fn draw_below(rng: &mut rand::rngs::ThreadRng, n: u8) -> (r: u8)
    requires
        n > 0,
    ensures
        r < n,
{
    rng.gen_range(0u8..n)
}

/// The number of values of a hexadecimal digit.
pub const DIGIT_VALUES: u8 = 16;

/// The text of the given bytes as a data line: two digits for each byte.
pub fn obj_data_text(bytes: Vec<u8>) -> (s: String)
    ensures
        s@ == data_line(bytes@),
{
    let data = SegmentData::from_bytes(bytes);
    let line = data_chars(&data);
    assert(line@.subrange(0, line@.len() as int) =~= line@);
    string_of(line.as_slice(), 0, line.len())
}

/// A data line of `len` bytes drawn at random.
pub fn gen_obj_data(len: usize) -> (s: String)
    ensures
        exists|bytes: Seq<u8>| bytes.len() == len && s@ == data_line(bytes),
{
    let mut rng = generator();
    let mut bytes: Vec<u8> = Vec::new();
    let mut k: usize = 0;
    while k < len
        invariant
            k <= len,
            bytes@.len() == k,
        decreases len - k,
    {
        let hi = draw_below(&mut rng, DIGIT_VALUES);
        let lo = draw_below(&mut rng, DIGIT_VALUES);
        bytes.push(hi * DIGIT_VALUES + lo);
        k += 1;
    }
    let ghost drawn = bytes@;
    let s = obj_data_text(bytes);
    assert(drawn.len() == len && s@ == data_line(drawn));
    s
}

} // verus!
