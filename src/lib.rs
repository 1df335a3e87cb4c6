//! A small strided n-dimensional array engine with broadcasting arithmetic,
//! reductions and matrix multiplication, together with the decision logic of a
//! GPU runtime binding (backend selection, status checks, device selection,
//! buffer lifecycle).

pub mod binding;
pub mod gpu;
pub mod ndarray;
pub mod shape;

pub use binding::{
    bind_step, check_copy_size, check_status, resolve_symbols, select_device, BindEvent, BindStage,
    BufferHandle, HipSymbol, SYMBOL_COUNT,
};
pub use gpu::{Backend, Device, GpuDevice, GpuError, HipDeviceProp, HipMemcpyKind, HostOs};
pub use ndarray::{checked_size, NdArray};
pub use shape::{broadcast_shape, c_strides, unravel_index};
