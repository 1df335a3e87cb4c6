//! The checked construction protocol of a native GPU runtime binding, the
//! status and size checks of its calls, and the release-once discipline of
//! device buffers. The native calls themselves are made by the caller, which
//! feeds their outcomes to these decisions.
use vstd::prelude::*;
use crate::gpu::GpuError;

verus! {

/// Number of runtime entry points the binding resolves.
pub const SYMBOL_COUNT: usize = 8;

/// The runtime entry points, in the order in which they are resolved.
#[derive(Debug, Clone, Copy, PartialEq, Eq, Structural)]
pub enum HipSymbol {
    Init,
    GetDeviceCount,
    SetDevice,
    GetDeviceProperties,
    Malloc,
    Free,
    Memcpy,
    DeviceSynchronize,
}

pub open spec fn symbol_at(i: int) -> HipSymbol {
    if i == 0 {
        HipSymbol::Init
    } else if i == 1 {
        HipSymbol::GetDeviceCount
    } else if i == 2 {
        HipSymbol::SetDevice
    } else if i == 3 {
        HipSymbol::GetDeviceProperties
    } else if i == 4 {
        HipSymbol::Malloc
    } else if i == 5 {
        HipSymbol::Free
    } else if i == 6 {
        HipSymbol::Memcpy
    } else {
        HipSymbol::DeviceSynchronize
    }
}

pub open spec fn symbol_name(s: HipSymbol) -> &'static str {
    match s {
        HipSymbol::Init => "hipInit",
        HipSymbol::GetDeviceCount => "hipGetDeviceCount",
        HipSymbol::SetDevice => "hipSetDevice",
        HipSymbol::GetDeviceProperties => "hipGetDeviceProperties",
        HipSymbol::Malloc => "hipMalloc",
        HipSymbol::Free => "hipFree",
        HipSymbol::Memcpy => "hipMemcpy",
        HipSymbol::DeviceSynchronize => "hipDeviceSynchronize",
    }
}

impl HipSymbol {
    /// The entry point resolved in position `i` of the table.
    pub fn at(i: usize) -> (r: HipSymbol)
        requires
            i < SYMBOL_COUNT,
        ensures
            r == symbol_at(i as int),
    {
        if i == 0 {
            HipSymbol::Init
        } else if i == 1 {
            HipSymbol::GetDeviceCount
        } else if i == 2 {
            HipSymbol::SetDevice
        } else if i == 3 {
            HipSymbol::GetDeviceProperties
        } else if i == 4 {
            HipSymbol::Malloc
        } else if i == 5 {
            HipSymbol::Free
        } else if i == 6 {
            HipSymbol::Memcpy
        } else {
            HipSymbol::DeviceSynchronize
        }
    }

    /// The exported name of this entry point.
    pub fn name(&self) -> (r: &'static str)
        ensures
            r == symbol_name(*self),
    {
        match self {
            HipSymbol::Init => "hipInit",
            HipSymbol::GetDeviceCount => "hipGetDeviceCount",
            HipSymbol::SetDevice => "hipSetDevice",
            HipSymbol::GetDeviceProperties => "hipGetDeviceProperties",
            HipSymbol::Malloc => "hipMalloc",
            HipSymbol::Free => "hipFree",
            HipSymbol::Memcpy => "hipMemcpy",
            HipSymbol::DeviceSynchronize => "hipDeviceSynchronize",
        }
    }
}

/// The outcome of a runtime call: success on status 0, otherwise a failure
/// naming the call and carrying the raw status.
pub open spec fn status_result(code: i32, call: &'static str) -> Result<(), GpuError> {
    if code == 0 {
        Ok(())
    } else {
        Err(GpuError::HipCallFailed { call, code })
    }
}

/// Checks the status returned by the runtime call `call`.
pub fn check_status(code: i32, call: &'static str) -> (r: Result<(), GpuError>)
    ensures
        r == status_result(code, call),
{
    if code == 0 {
        Ok(())
    } else {
        Err(GpuError::HipCallFailed { call, code })
    }
}

/// A host/device copy must move exactly the buffer's size.
pub open spec fn copy_size_result(buffer_bytes: usize, host_bytes: usize) -> Result<(), GpuError> {
    if buffer_bytes == host_bytes {
        Ok(())
    } else {
        Err(GpuError::InvalidCopySize { expected: buffer_bytes, actual: host_bytes })
    }
}

/// Checks that a host slice of `host_bytes` bytes matches a device buffer of
/// `buffer_bytes` bytes.
pub fn check_copy_size(buffer_bytes: usize, host_bytes: usize) -> (r: Result<(), GpuError>)
    ensures
        r == copy_size_result(buffer_bytes, host_bytes),
{
    if buffer_bytes == host_bytes {
        Ok(())
    } else {
        Err(GpuError::InvalidCopySize { expected: buffer_bytes, actual: host_bytes })
    }
}

/// The device ordinal is valid for a runtime reporting `count` devices.
pub open spec fn device_result(count: i32, device_id: i32) -> Result<(), GpuError> {
    if count <= 0 || device_id < 0 || device_id >= count {
        Err(GpuError::NoDevice)
    } else {
        Ok(())
    }
}

/// Checks the requested device ordinal against the device count.
pub fn select_device(count: i32, device_id: i32) -> (r: Result<(), GpuError>)
    ensures
        r == device_result(count, device_id),
{
    if count <= 0 || device_id < 0 || device_id >= count {
        Err(GpuError::NoDevice)
    } else {
        Ok(())
    }
}

/// Position of the first entry point that was not found, if any.
pub open spec fn first_missing(found: Seq<bool>, i: int) -> bool {
    &&& 0 <= i < found.len()
    &&& !found[i]
    &&& forall|j: int| 0 <= j < i ==> #[trigger] found[j]
}

/// The outcome of resolving the table, given which entry points were found
/// (in table order): the first missing one is reported.
pub fn resolve_symbols(found: &[bool]) -> (r: Result<(), GpuError>)
    requires
        found@.len() == SYMBOL_COUNT,
    ensures
        r is Ok <==> forall|j: int| 0 <= j < found@.len() ==> #[trigger] found@[j],
        r is Err ==> exists|i: int|
            first_missing(found@, i) && r == Err::<(), GpuError>(
                GpuError::SymbolNotFound(symbol_name(symbol_at(i))),
            ),
{
    let mut i: usize = 0;
    while i < SYMBOL_COUNT
        invariant
            i <= SYMBOL_COUNT,
            found@.len() == SYMBOL_COUNT,
            forall|j: int| 0 <= j < i ==> #[trigger] found@[j],
        decreases SYMBOL_COUNT - i,
    {
        if !found[i] {
            let s = HipSymbol::at(i);
            let r = Err(GpuError::SymbolNotFound(s.name()));
            assert(first_missing(found@, i as int));
            return r;
        }
        i += 1;
    }
    Ok(())
}

/// A copy back to the host succeeds exactly when the host slice has the byte
/// size of the device buffer (which a copy to the device sizes from its host
/// slice); any other size is refused with both sizes reported.
pub proof fn lemma_round_trip_sizes(buffer_bytes: usize, out_bytes: usize)
    ensures
        copy_size_result(buffer_bytes, buffer_bytes) is Ok,
        buffer_bytes != out_bytes ==> copy_size_result(buffer_bytes, out_bytes) == Err::<
            (),
            GpuError,
        >(GpuError::InvalidCopySize { expected: buffer_bytes, actual: out_bytes }),
{
}

/// Steps of binding construction, in order.
#[derive(Debug, Clone, Copy, PartialEq, Eq, Structural)]
pub enum BindStage {
    CheckPlatform,
    LoadLibrary,
    ResolveSymbols,
    Initialize,
    CountDevices,
    SelectDevice,
    Ready,
}

/// What the caller observed while performing a step.
#[derive(Debug, Clone, PartialEq, Eq)]
pub enum BindEvent {
    /// Whether the runtime is wired for this platform.
    Supported(bool),
    /// Whether the shared library was loaded.
    Loaded(bool),
    /// For each entry point, in table order, whether it was found.
    Resolved(Vec<bool>),
    /// Status of `hipInit` or `hipSetDevice`.
    Status(i32),
    /// Status of `hipGetDeviceCount` and the count it reported.
    Count { code: i32, count: i32 },
}

/// The event that a stage expects.
pub open spec fn event_fits(stage: BindStage, event: BindEvent) -> bool {
    match (stage, event) {
        (BindStage::CheckPlatform, BindEvent::Supported(_)) => true,
        (BindStage::LoadLibrary, BindEvent::Loaded(_)) => true,
        (BindStage::ResolveSymbols, BindEvent::Resolved(found)) => found@.len() == SYMBOL_COUNT,
        (BindStage::Initialize, BindEvent::Status(_)) => true,
        (BindStage::CountDevices, BindEvent::Count { .. }) => true,
        (BindStage::SelectDevice, BindEvent::Status(_)) => true,
        _ => false,
    }
}

/// The construction protocol: each step either advances to the next or ends
/// construction with the failure it observed.
pub open spec fn bind_next(stage: BindStage, event: BindEvent, device_id: i32) -> Result<BindStage, GpuError> {
    match (stage, event) {
        (BindStage::CheckPlatform, BindEvent::Supported(ok)) => if ok {
            Ok(BindStage::LoadLibrary)
        } else {
            Err(GpuError::UnsupportedPlatform)
        },
        (BindStage::LoadLibrary, BindEvent::Loaded(ok)) => if ok {
            Ok(BindStage::ResolveSymbols)
        } else {
            Err(GpuError::LibraryNotFound)
        },
        (BindStage::ResolveSymbols, BindEvent::Resolved(found)) => if forall|j: int|
            0 <= j < found@.len() ==> #[trigger] found@[j] {
            Ok(BindStage::Initialize)
        } else {
            Err(GpuError::SymbolNotFound(symbol_name(symbol_at(choose|i: int| first_missing(found@, i)))))
        },
        (BindStage::Initialize, BindEvent::Status(code)) => match status_result(code, "hipInit") {
            Ok(_) => Ok(BindStage::CountDevices),
            Err(e) => Err(e),
        },
        (BindStage::CountDevices, BindEvent::Count { code, count }) => match status_result(
            code,
            "hipGetDeviceCount",
        ) {
            Ok(_) => match device_result(count, device_id) {
                Ok(_) => Ok(BindStage::SelectDevice),
                Err(e) => Err(e),
            },
            Err(e) => Err(e),
        },
        (BindStage::SelectDevice, BindEvent::Status(code)) => match status_result(code, "hipSetDevice") {
            Ok(_) => Ok(BindStage::Ready),
            Err(e) => Err(e),
        },
        _ => Ok(stage),
    }
}

/// Advances binding construction by one observed step.
pub fn bind_step(stage: BindStage, event: &BindEvent, device_id: i32) -> (r: Result<BindStage, GpuError>)
    requires
        event_fits(stage, *event),
    ensures
        r == bind_next(stage, *event, device_id),
{
    match (stage, event) {
        (BindStage::CheckPlatform, BindEvent::Supported(ok)) => if *ok {
            Ok(BindStage::LoadLibrary)
        } else {
            Err(GpuError::UnsupportedPlatform)
        },
        (BindStage::LoadLibrary, BindEvent::Loaded(ok)) => if *ok {
            Ok(BindStage::ResolveSymbols)
        } else {
            Err(GpuError::LibraryNotFound)
        },
        (BindStage::ResolveSymbols, BindEvent::Resolved(found)) => {
            let r = resolve_symbols(found.as_slice());
            match r {
                Ok(()) => Ok(BindStage::Initialize),
                Err(e) => {
                    proof {
                        let i = choose|i: int| first_missing(found@, i);
                        assert forall|a: int, b: int|
                            first_missing(found@, a) && first_missing(found@, b) implies a == b by {
                            if a < b {
                                assert(found@[a]);
                            }
                            if b < a {
                                assert(found@[b]);
                            }
                        }
                    }
                    Err(e)
                },
            }
        },
        (BindStage::Initialize, BindEvent::Status(code)) => match check_status(*code, "hipInit") {
            Ok(()) => Ok(BindStage::CountDevices),
            Err(e) => Err(e),
        },
        (BindStage::CountDevices, BindEvent::Count { code, count }) => match check_status(
            *code,
            "hipGetDeviceCount",
        ) {
            Ok(()) => match select_device(*count, device_id) {
                Ok(()) => Ok(BindStage::SelectDevice),
                Err(e) => Err(e),
            },
            Err(e) => Err(e),
        },
        (BindStage::SelectDevice, BindEvent::Status(code)) => match check_status(*code, "hipSetDevice") {
            Ok(()) => Ok(BindStage::Ready),
            Err(e) => Err(e),
        },
        _ => Ok(stage),
    }
}

/// Without a wired platform or a loadable library, construction ends at once
/// with `UnsupportedPlatform` or `LibraryNotFound`, before any runtime call.
pub proof fn lemma_no_runtime_no_binding(device_id: i32)
    ensures
        bind_next(BindStage::CheckPlatform, BindEvent::Supported(false), device_id) == Err::<
            BindStage,
            GpuError,
        >(GpuError::UnsupportedPlatform),
        bind_next(BindStage::LoadLibrary, BindEvent::Loaded(false), device_id) == Err::<
            BindStage,
            GpuError,
        >(GpuError::LibraryNotFound),
{
}

/// A device allocation, identified by its (non-zero) address and byte size,
/// released at most once.
#[derive(Debug)]
pub struct BufferHandle {
    addr: usize,
    size_bytes: usize,
}

impl BufferHandle {
    pub closed spec fn spec_addr(&self) -> usize {
        self.addr
    }

    pub closed spec fn spec_size(&self) -> usize {
        self.size_bytes
    }

    pub fn new(addr: usize, size_bytes: usize) -> (r: Self)
        ensures
            r.spec_addr() == addr,
            r.spec_size() == size_bytes,
    {
        BufferHandle { addr, size_bytes }
    }

    /// Address of the allocation; 0 once released.
    pub fn addr(&self) -> (r: usize)
        ensures
            r == self.spec_addr(),
    {
        self.addr
    }

    pub fn size_bytes(&self) -> (r: usize)
        ensures
            r == self.spec_size(),
    {
        self.size_bytes
    }

    /// Hands out the address to free, the first time only; afterwards the
    /// handle holds no address and a further release hands out nothing.
    pub fn release(&mut self) -> (r: Option<usize>)
        ensures
            final(self).spec_addr() == 0,
            final(self).spec_size() == old(self).spec_size(),
            r == (if old(self).spec_addr() != 0 {
                Some(old(self).spec_addr())
            } else {
                None::<usize>
            }),
    {
        if self.addr != 0 {
            let a = self.addr;
            self.addr = 0;
            Some(a)
        } else {
            None
        }
    }
}

} // verus!
