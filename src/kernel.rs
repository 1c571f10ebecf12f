use vstd::prelude::*;
use crate::base::CmpOp;
use crate::elementwise::ElemOp;
use crate::reduce::Reduction;

verus! {

/// Width in bytes of every element kind in this backend's buffers.
pub const ELEM_BYTES: u32 = 4;

/// Invocations per workgroup of the dispatches.
pub const WORKGROUP: u32 = 32;

/// The kernel source templates, with the operator each one is specialized
/// with.
#[derive(PartialEq, Eq, Structural, Clone, Copy, Debug)]
pub enum KernelTemplate {
    Binary(ElemOp),
    BinaryInplace(ElemOp),
    Scalar(ElemOp),
    ScalarInplace(ElemOp),
    Compare(CmpOp),
    CompareScalar(CmpOp),
    ReduceDim(Reduction),
    ReduceAll,
    Cat,
    Narrow,
    Index,
    IndexAssign,
    Mask,
    Gather,
    Scatter,
}

/// A kernel specialization: the template, the element width and the
/// workgroup size it is compiled for.
#[derive(PartialEq, Eq, Structural, Clone, Copy, Debug)]
pub struct KernelKey {
    pub template: KernelTemplate,
    pub elem_bytes: u32,
    pub workgroup: u32,
}

/// The specialization that dispatches of `template` use.
pub fn kernel_key(template: KernelTemplate) -> (k: KernelKey)
    ensures
        k == (KernelKey { template, elem_bytes: ELEM_BYTES, workgroup: WORKGROUP }),
{
    KernelKey { template, elem_bytes: ELEM_BYTES, workgroup: WORKGROUP }
}

} // verus!
