//! Compute-backend descriptors, their codegen profiles, the decisions of
//! backend auto-detection, and the error kinds of the runtime binding.
use vstd::prelude::*;
use vstd::utf8::encode_utf8;

verus! {

/// A compute target.
#[derive(Debug, Clone, Copy, PartialEq, Eq, Structural)]
pub enum Backend {
    Cpu,
    Cuda,
    Rocm,
}

/// Operating system of the host, which decides the CPU target triple.
#[derive(Debug, Clone, Copy, PartialEq, Eq, Structural)]
pub enum HostOs {
    Windows,
    MacOs,
    Linux,
}

/// Failures of the runtime binding.
#[derive(Debug, Clone, PartialEq, Eq)]
pub enum GpuError {
    UnsupportedPlatform,
    LibraryNotFound,
    SymbolNotFound(&'static str),
    HipCallFailed { call: &'static str, code: i32 },
    InvalidCopySize { expected: usize, actual: usize },
    NoDevice,
}

/// Device-properties record filled by the runtime; only the leading
/// NUL-terminated name is interpreted.
#[derive(Debug, Clone, Copy)]
pub struct HipDeviceProp {
    pub name: [u8; 256],
    pub _opaque: [u8; 4096],
}

/// Direction of a runtime memory copy.
#[derive(Debug, Clone, Copy, PartialEq, Eq, Structural)]
pub enum HipMemcpyKind {
    HostToHost,
    HostToDevice,
    DeviceToHost,
    DeviceToDevice,
    Default,
}

impl HipMemcpyKind {
    pub open spec fn spec_code(self) -> i32 {
        match self {
            HipMemcpyKind::HostToHost => 0,
            HipMemcpyKind::HostToDevice => 1,
            HipMemcpyKind::DeviceToHost => 2,
            HipMemcpyKind::DeviceToDevice => 3,
            HipMemcpyKind::Default => 4,
        }
    }

    /// The integer the runtime ABI uses for this copy direction.
    pub fn code(&self) -> (r: i32)
        ensures
            r == self.spec_code(),
    {
        match self {
            HipMemcpyKind::HostToHost => 0,
            HipMemcpyKind::HostToDevice => 1,
            HipMemcpyKind::DeviceToHost => 2,
            HipMemcpyKind::DeviceToDevice => 3,
            HipMemcpyKind::Default => 4,
        }
    }
}

impl HipDeviceProp {
    /// Length of the device name: the position of the first NUL byte, or the
    /// whole field when there is none.
    pub fn name_len(&self) -> (r: usize)
        ensures
            r <= 256,
            forall|i: int| 0 <= i < r ==> self.name@[i] != 0,
            r < 256 ==> self.name@[r as int] == 0,
    {
        let mut i: usize = 0;
        while i < 256
            invariant
                i <= 256,
                self.name@.len() == 256,
                forall|j: int| 0 <= j < i ==> self.name@[j] != 0,
            decreases 256 - i,
        {
            if self.name[i] == 0 {
                return i;
            }
            i += 1;
        }
        i
    }
}

/// Codegen profile of a compute target.
pub trait Device {
    fn backend(&self) -> Backend;

    fn target_triple(&self, host: HostOs) -> &'static str;

    fn mcpu(&self) -> &'static str;
}

/// A backend together with a device ordinal.
#[derive(Debug, Clone, PartialEq, Eq, Structural)]
pub struct GpuDevice {
    pub backend: Backend,
    pub device_id: i32,
}

impl GpuDevice {
    pub fn new(backend: Backend, device_id: i32) -> (r: Self)
        ensures
            r.backend == backend,
            r.device_id == device_id,
    {
        Self { backend, device_id }
    }

    /// Device 0 of the backend that the override names, if it names one.
    pub fn from_override(value: &str) -> (r: Option<Self>)
        ensures
            r == override_device(trimmed(value@)),
    {
        let t = trim_str(value);
        proof {
            assert(t@ == trimmed(value@));
        }
        match backend_from_name(t) {
            Some(b) => Some(Self::new(b, 0)),
            None => None,
        }
    }

    /// Resolves the backend: a recognised override wins; otherwise ROCm when
    /// the runtime probe succeeded, else CPU. Always device 0.
    pub fn auto_detect(forced: Option<Backend>, rocm_available: bool) -> (r: Self)
        ensures
            r == detected_device(forced, rocm_available),
    {
        match forced {
            Some(b) => Self::new(b, 0),
            None => if rocm_available {
                Self::new(Backend::Rocm, 0)
            } else {
                Self::new(Backend::Cpu, 0)
            },
        }
    }
}

pub open spec fn detected_device(forced: Option<Backend>, rocm_available: bool) -> GpuDevice {
    match forced {
        Some(b) => GpuDevice { backend: b, device_id: 0 },
        None => GpuDevice {
            backend: if rocm_available {
                Backend::Rocm
            } else {
                Backend::Cpu
            },
            device_id: 0,
        },
    }
}

/// ASCII lower-casing of one byte.
pub open spec fn ascii_lower(c: u8) -> u8 {
    if 65 <= c <= 90 {
        (c + 32) as u8
    } else {
        c
    }
}

/// The bytes `t` spell the lower-case ASCII word `w`, ignoring ASCII case.
/// (Words below are written as their ASCII codes.)
pub open spec fn same_word(t: Seq<u8>, w: Seq<u8>) -> bool {
    t.len() == w.len() && forall|i: int| 0 <= i < t.len() ==> ascii_lower(#[trigger] t[i]) == w[i]
}

/// The backend that the UTF-8 bytes `t` of a trimmed override value name.
pub open spec fn backend_named(t: Seq<u8>) -> Option<Backend> {
    if same_word(t, seq![114u8, 111u8, 99u8, 109u8]) || same_word(t, seq![97u8, 109u8, 100u8]) {
        Some(Backend::Rocm)
    } else if same_word(t, seq![99u8, 117u8, 100u8, 97u8]) || same_word(
        t,
        seq![110u8, 118u8, 105u8, 100u8, 105u8, 97u8],
    ) {
        Some(Backend::Cuda)
    } else if same_word(t, seq![99u8, 112u8, 117u8]) {
        Some(Backend::Cpu)
    } else {
        None
    }
}

pub open spec fn override_device(t: Seq<char>) -> Option<GpuDevice> {
    match backend_named(encode_utf8(t)) {
        Some(b) => Some(GpuDevice { backend: b, device_id: 0 }),
        None => None,
    }
}

/// What `str::trim` returns for `s`.
pub uninterp spec fn trimmed(s: Seq<char>) -> Seq<char>;

/// Relies on `str::trim`: the result depends on the characters alone.
#[verifier::external_body]
fn trim_str(s: &str) -> (r: &str)
    ensures
        r@ == trimmed(s@),
{
    s.trim()
}

fn lower_byte(c: u8) -> (r: u8)
    ensures
        r == ascii_lower(c),
{
    if 65 <= c && c <= 90 {
        c + 32
    } else {
        c
    }
}

fn spells(t: &[u8], w: &[u8]) -> (r: bool)
    ensures
        r == same_word(t@, w@),
{
    if t.len() != w.len() {
        return false;
    }
    let mut i: usize = 0;
    while i < t.len()
        invariant
            i <= t@.len(),
            t@.len() == w@.len(),
            forall|j: int| 0 <= j < i ==> ascii_lower(#[trigger] t@[j]) == w@[j],
        decreases t@.len() - i,
    {
        if lower_byte(t[i]) != w[i] {
            return false;
        }
        i += 1;
    }
    true
}

/// The backend that an override value (already trimmed) names, compared
/// ignoring ASCII case: `rocm`/`amd`, `cuda`/`nvidia` or `cpu`.
pub fn backend_from_name(name: &str) -> (r: Option<Backend>)
    ensures
        r == backend_named(encode_utf8(name@)),
{
    let t = name.as_bytes();
    let rocm: [u8; 4] = [114u8, 111u8, 99u8, 109u8];
    let amd: [u8; 3] = [97u8, 109u8, 100u8];
    let cuda: [u8; 4] = [99u8, 117u8, 100u8, 97u8];
    let nvidia: [u8; 6] = [110u8, 118u8, 105u8, 100u8, 105u8, 97u8];
    let cpu: [u8; 3] = [99u8, 112u8, 117u8];
    assert(rocm@ =~= seq![114u8, 111u8, 99u8, 109u8]);
    assert(amd@ =~= seq![97u8, 109u8, 100u8]);
    assert(cuda@ =~= seq![99u8, 117u8, 100u8, 97u8]);
    assert(nvidia@ =~= seq![110u8, 118u8, 105u8, 100u8, 105u8, 97u8]);
    assert(cpu@ =~= seq![99u8, 112u8, 117u8]);
    if spells(t, rocm.as_slice()) || spells(t, amd.as_slice()) {
        Some(Backend::Rocm)
    } else if spells(t, cuda.as_slice()) || spells(t, nvidia.as_slice()) {
        Some(Backend::Cuda)
    } else if spells(t, cpu.as_slice()) {
        Some(Backend::Cpu)
    } else {
        None
    }
}

pub open spec fn spec_target_triple(backend: Backend, host: HostOs) -> &'static str {
    match backend {
        Backend::Rocm => "amdgcn-amd-amdhsa",
        Backend::Cuda => "nvptx64-nvidia-cuda",
        Backend::Cpu => match host {
            HostOs::Windows => "x86_64-pc-windows-msvc",
            HostOs::MacOs => "x86_64-apple-darwin",
            HostOs::Linux => "x86_64-pc-linux-gnu",
        },
    }
}

pub open spec fn spec_mcpu(backend: Backend) -> &'static str {
    match backend {
        Backend::Rocm => "gfx1101",
        Backend::Cuda => "sm_89",
        Backend::Cpu => "x86_64",
    }
}

impl Device for GpuDevice {
    fn backend(&self) -> (r: Backend)
        ensures
            r == self.backend,
    {
        self.backend
    }

    fn target_triple(&self, host: HostOs) -> (r: &'static str)
        ensures
            r == spec_target_triple(self.backend, host),
    {
        match self.backend {
            Backend::Rocm => "amdgcn-amd-amdhsa",
            Backend::Cuda => "nvptx64-nvidia-cuda",
            Backend::Cpu => match host {
                HostOs::Windows => "x86_64-pc-windows-msvc",
                HostOs::MacOs => "x86_64-apple-darwin",
                HostOs::Linux => "x86_64-pc-linux-gnu",
            },
        }
    }

    fn mcpu(&self) -> (r: &'static str)
        ensures
            r == spec_mcpu(self.backend),
    {
        match self.backend {
            Backend::Rocm => "gfx1101",
            Backend::Cuda => "sm_89",
            Backend::Cpu => "x86_64",
        }
    }
}

/// The device that a named offload target selects: `rocm` and `cuda` select
/// device 0 of their backend, `gpu` selects nothing (auto-detection
/// decides), any other name the CPU. Names are compared exactly.
pub open spec fn target_named(t: Seq<u8>) -> Option<GpuDevice> {
    if t == seq![114u8, 111u8, 99u8, 109u8] {
        Some(GpuDevice { backend: Backend::Rocm, device_id: 0 })
    } else if t == seq![103u8, 112u8, 117u8] {
        None
    } else if t == seq![99u8, 117u8, 100u8, 97u8] {
        Some(GpuDevice { backend: Backend::Cuda, device_id: 0 })
    } else {
        Some(GpuDevice { backend: Backend::Cpu, device_id: 0 })
    }
}

fn same_bytes(t: &[u8], w: &[u8]) -> (r: bool)
    ensures
        r == (t@ == w@),
{
    if t.len() != w.len() {
        return false;
    }
    let mut i: usize = 0;
    while i < t.len()
        invariant
            i <= t@.len(),
            t@.len() == w@.len(),
            forall|j: int| 0 <= j < i ==> t@[j] == w@[j],
        decreases t@.len() - i,
    {
        if t[i] != w[i] {
            return false;
        }
        i += 1;
    }
    assert(t@ =~= w@);
    true
}

impl GpuDevice {
    /// The device that the offload target `target` selects; `None` for
    /// `gpu`, which asks for auto-detection.
    pub fn for_target(target: &str) -> (r: Option<Self>)
        ensures
            r == target_named(encode_utf8(target@)),
    {
        let t = target.as_bytes();
        let rocm: [u8; 4] = [114, 111, 99, 109];
        let gpu: [u8; 3] = [103, 112, 117];
        let cuda: [u8; 4] = [99, 117, 100, 97];
        assert(rocm@ =~= seq![114u8, 111u8, 99u8, 109u8]);
        assert(gpu@ =~= seq![103u8, 112u8, 117u8]);
        assert(cuda@ =~= seq![99u8, 117u8, 100u8, 97u8]);
        if same_bytes(t, rocm.as_slice()) {
            Some(Self::new(Backend::Rocm, 0))
        } else if same_bytes(t, gpu.as_slice()) {
            None
        } else if same_bytes(t, cuda.as_slice()) {
            Some(Self::new(Backend::Cuda, 0))
        } else {
            Some(Self::new(Backend::Cpu, 0))
        }
    }
}

/// A recognised override decides the backend, whatever the runtime probe
/// reports.
pub proof fn lemma_override_wins(forced: Backend, probe_a: bool, probe_b: bool)
    ensures
        detected_device(Some(forced), probe_a) == detected_device(Some(forced), probe_b),
        detected_device(Some(forced), probe_a).backend == forced,
        detected_device(Some(forced), probe_a).device_id == 0,
{
}

} // verus!
