//! The tensors of candle, as the decoding code sees them.
//!
//! A tensor is described by names for its sizes, its elements read as single-precision scores or
//! as integers, the type of its elements, and the place where it lies. They describe a tensor that
//! nobody overwrites in place. Everything that candle computes on tensors enters through the
//! functions of this module, and each says what is taken from candle without proof.

use vstd::prelude::*;

use candle_core::{DType, Device, Tensor};
use candle_transformers::utils::apply_repeat_penalty;

use crate::float::F32;

verus! {

/// Candle's tensor: an array of numbers with any number of dimensions.
#[verifier::external_type_specification]
#[verifier::external_body]
pub struct ExTensor(Tensor);

/// Candle's error, carried through.
#[verifier::external_type_specification]
#[verifier::external_body]
pub struct ExError(candle_core::Error);

/// Candle's device, on which tensors are made.
#[verifier::external_type_specification]
#[verifier::external_body]
pub struct ExDevice(Device);

/// The type of a tensor's elements, as far as the decoding code tells types apart.
pub enum ElementType {
    F32,
    I64,
    U32,
    /// Another type that candle casts to single precision.
    Castable,
    /// A packed format that candle only stores.
    Packed,
}

/// Where a tensor lies: in main memory or on an accelerator with a number.
pub enum Place {
    Memory,
    Cuda { id: usize },
    Metal { id: usize },
}

/// The size of a tensor along each dimension.
pub uninterp spec fn tensor_dims(t: Tensor) -> Seq<usize>;

/// The elements of a tensor in row-major order, each cast to single precision, with every NaN
/// written as the one canonical NaN. Of a packed format only their number is meant.
pub uninterp spec fn tensor_scores(t: Tensor) -> Seq<F32>;

/// The elements of a tensor of integers in row-major order.
pub uninterp spec fn tensor_integers(t: Tensor) -> Seq<i64>;

/// The type of a tensor's elements.
pub uninterp spec fn tensor_element_type(t: Tensor) -> ElementType;

/// Where a tensor lies.
pub uninterp spec fn tensor_place(t: Tensor) -> Place;

/// Where the tensors of a device lie.
pub uninterp spec fn device_place(d: Device) -> Place;

/// The tensor lies in main memory, in an element type that candle can cast to single precision.
pub open spec fn tensor_in_memory(t: Tensor) -> bool {
    tensor_place(t) is Memory && tensor_element_type(t) !is Packed
}

/// The tensor lies in main memory, in a packed format that candle does not read.
pub open spec fn only_stored(t: Tensor) -> bool {
    tensor_place(t) is Memory && tensor_element_type(t) is Packed
}

/// The two tensors hold the same elements, of the same type and in the same place.
pub open spec fn same_elements(a: Tensor, b: Tensor) -> bool {
    &&& tensor_scores(a) == tensor_scores(b)
    &&& tensor_integers(a) == tensor_integers(b)
    &&& tensor_element_type(a) == tensor_element_type(b)
    &&& tensor_place(a) == tensor_place(b)
}

/// The sizes multiplied with each other.
pub open spec fn product(dims: Seq<usize>) -> nat
    decreases dims.len(),
{
    if dims.len() == 0 {
        1
    } else {
        product(dims.drop_last()) * dims.last() as nat
    }
}

/// Sizes next to each other never multiply to more than a machine word holds.
pub open spec fn fits(dims: Seq<usize>) -> bool {
    forall|i: int, j: int|
        0 <= i <= j <= dims.len() ==> product(#[trigger] dims.subrange(i, j)) <= usize::MAX
}

/// `Tensor::dims` returns the sizes. A tensor has as many elements as its sizes multiply to.
pub assume_specification[ Tensor::dims ](t: &Tensor) -> (r: &[usize])
    ensures
        r@ == tensor_dims(*t),
        tensor_scores(*t).len() == product(r@),
;

/// `Tensor::device` returns the device of a tensor, whose place is that of the tensor.
pub assume_specification[ Tensor::device ](t: &Tensor) -> (r: &Device)
    ensures
        device_place(*r) == tensor_place(*t),
;

/// `Tensor::flatten_all` lays the same elements out along one dimension. It does not fail in main
/// memory, nor where there is one dimension already. Candle multiplies the sizes from either end,
/// so the products have to fit.
pub assume_specification[ Tensor::flatten_all ](t: &Tensor) -> (r: Result<
    Tensor,
    candle_core::Error,
>)
    requires
        fits(tensor_dims(*t)),
    ensures
        tensor_in_memory(*t) || tensor_dims(*t).len() == 1 ==> r is Ok,
        r matches Ok(flat) ==> same_elements(flat, *t) && tensor_dims(flat) == seq![
            product(tensor_dims(*t)) as usize,
        ],
;

/// `Tensor::squeeze` on the first dimension drops it when its size is one and changes nothing
/// otherwise. It fails exactly on a tensor without dimensions.
#[verifier::external_body]
pub(crate) fn squeeze_first(t: &Tensor) -> (r: Result<Tensor, candle_core::Error>)
    ensures
        r is Ok <==> tensor_dims(*t).len() > 0,
        r matches Ok(s) ==> same_elements(s, *t) && tensor_dims(s) == (if tensor_dims(*t)[0] == 1 {
            tensor_dims(*t).drop_first()
        } else {
            tensor_dims(*t)
        }),
{
    t.squeeze(0)
}

/// `Tensor::unsqueeze` at the front adds a dimension of size one. It does not fail.
#[verifier::external_body]
pub(crate) fn unsqueeze_first(t: &Tensor) -> (r: Result<Tensor, candle_core::Error>)
    ensures
        r is Ok,
        r matches Ok(s) ==> same_elements(s, *t) && tensor_dims(s) == seq![1usize] + tensor_dims(*t),
{
    t.unsqueeze(0)
}

/// `Tensor::dim` returns the size along dimension `i`, and fails exactly when there is none.
#[verifier::external_body]
pub(crate) fn dim(t: &Tensor, i: usize) -> (r: Result<usize, candle_core::Error>)
    ensures
        r is Ok <==> i < tensor_dims(*t).len(),
        r matches Ok(size) ==> size == tensor_dims(*t)[i as int],
{
    t.dim(i)
}

/// `Tensor::to_dtype` and `Tensor::write_bytes` read a row of scores out, each as the bit pattern
/// of its single-precision value. `Tensor::dims1` refuses a tensor that is no row. In main memory a
/// row can always be read, unless it is in a packed format, which `Tensor::to_dtype` refuses.
#[verifier::external_body]
pub(crate) fn read_row(row: &Tensor) -> (r: Result<Vec<F32>, candle_core::Error>)
    ensures
        tensor_dims(*row).len() != 1 ==> r is Err,
        tensor_dims(*row).len() == 1 && tensor_in_memory(*row) ==> r is Ok,
        only_stored(*row) ==> r is Err,
        r matches Ok(scores) ==> scores@.len() == tensor_dims(*row)[0] && scores@.map_values(
            |s: F32| s.canonical(),
        ) == tensor_scores(*row),
{
    let row = row.to_dtype(DType::F32)?;
    row.dims1()?;
    let mut bytes: Vec<u8> = Vec::new();
    row.write_bytes(&mut bytes)?;
    Ok(bytes.chunks_exact(4).map(|b| F32 { bits: u32::from_le_bytes([b[0], b[1], b[2], b[3]]) }).collect())
}

/// `Tensor::from_raw_buffer` makes a row of single-precision scores from their bit patterns, on
/// the given device. In main memory it does not fail.
#[verifier::external_body]
pub(crate) fn make_row(scores: &Vec<F32>, device: &Device) -> (r: Result<Tensor, candle_core::Error>)
    ensures
        device_place(*device) is Memory ==> r is Ok,
        r matches Ok(row) ==> {
            &&& tensor_dims(row) == seq![scores@.len() as usize]
            &&& tensor_scores(row) == scores@.map_values(|s: F32| s.canonical())
            &&& tensor_element_type(row) is F32
            &&& tensor_place(row) == device_place(*device)
        },
{
    let bytes: Vec<u8> = scores.iter().flat_map(|s| s.bits.to_ne_bytes()).collect();
    Tensor::from_raw_buffer(&bytes, DType::F32, &[scores.len()], device)
}

/// `apply_repeat_penalty` lowers the score of each token of the context once, however often the
/// token occurs there: it divides a score that is at least zero and multiplies any other, in
/// single precision. A token beyond the row is skipped. The result is a row of single-precision
/// scores of the same size in the same place. The penalty arrives as its bit pattern and becomes
/// candle's number through a tensor of one element. Only a row is accepted. One in main memory
/// never fails, unless it is in a packed format, which is refused.
#[verifier::external_body]
pub(crate) fn penalise_present(row: &Tensor, penalty: F32, context: &[u32]) -> (r: Result<
    Tensor,
    candle_core::Error,
>)
    ensures
        tensor_dims(*row).len() != 1 ==> r is Err,
        tensor_dims(*row).len() == 1 && tensor_in_memory(*row) ==> r is Ok,
        only_stored(*row) ==> r is Err,
        r matches Ok(lowered) ==> {
            &&& tensor_dims(lowered) == tensor_dims(*row)
            &&& tensor_scores(lowered) == crate::models::decode::presence_penalised(
                tensor_scores(*row),
                penalty,
                context@,
            )
            &&& tensor_element_type(lowered) is F32
            &&& tensor_place(lowered) == tensor_place(*row)
        },
{
    let penalty = Tensor::from_raw_buffer(&penalty.bits.to_ne_bytes(), DType::F32, &[], &Device::Cpu)?;
    apply_repeat_penalty(row, penalty.to_scalar()?, context)
}

/// `Tensor::new` makes a tensor of one 64-bit integer on the given device. In main memory it does
/// not fail.
#[verifier::external_body]
pub(crate) fn make_id(id: i64, device: &Device) -> (r: Result<Tensor, candle_core::Error>)
    ensures
        device_place(*device) is Memory ==> r is Ok,
        r matches Ok(t) ==> {
            &&& tensor_dims(t) == seq![1usize]
            &&& tensor_integers(t) == seq![id]
            &&& tensor_element_type(t) is I64
            &&& tensor_place(t) == device_place(*device)
        },
{
    Tensor::new(&[id], device)
}

/// `Tensor::from_vec` arranges 32-bit integers along three dimensions, on the given device. It
/// refuses sizes that do not multiply to the number of integers; otherwise, in main memory, it
/// does not fail.
#[verifier::external_body]
pub(crate) fn make_positions(values: Vec<u32>, shape: (usize, usize, usize), device: &Device) -> (r:
    Result<Tensor, candle_core::Error>)
    requires
        shape.0 * shape.1 <= usize::MAX,
        shape.1 * shape.2 <= usize::MAX,
        shape.0 * shape.1 * shape.2 <= usize::MAX,
    ensures
        shape.0 * shape.1 * shape.2 != values@.len() ==> r is Err,
        shape.0 * shape.1 * shape.2 == values@.len() && device_place(*device) is Memory ==> r is Ok,
        r matches Ok(t) ==> {
            &&& tensor_dims(t) == seq![shape.0, shape.1, shape.2]
            &&& tensor_integers(t) == values@.map_values(|v: u32| v as i64)
            &&& tensor_element_type(t) is U32
            &&& tensor_place(t) == device_place(*device)
        },
{
    Tensor::from_vec(values, shape, device)
}

}
