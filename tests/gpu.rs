use aeronum::{
    bind_step, check_copy_size, check_status, resolve_symbols, select_device, Backend, BindEvent,
    BindStage, BufferHandle, Device, GpuDevice, GpuError, HipDeviceProp, HipMemcpyKind, HipSymbol,
    HostOs, SYMBOL_COUNT,
};

#[test]
fn rocm_profile_metadata_is_stable() {
    let dev = GpuDevice::new(Backend::Rocm, 0);
    assert_eq!(dev.target_triple(HostOs::Linux), "amdgcn-amd-amdhsa");
    assert_eq!(dev.mcpu(), "gfx1101");
}

#[test]
fn profiles_of_every_backend() {
    let cuda = GpuDevice::new(Backend::Cuda, 1);
    assert_eq!(cuda.backend(), Backend::Cuda);
    assert_eq!(cuda.target_triple(HostOs::Windows), "nvptx64-nvidia-cuda");
    assert_eq!(cuda.mcpu(), "sm_89");
    let cpu = GpuDevice::new(Backend::Cpu, 0);
    assert_eq!(cpu.target_triple(HostOs::Windows), "x86_64-pc-windows-msvc");
    assert_eq!(cpu.target_triple(HostOs::MacOs), "x86_64-apple-darwin");
    assert_eq!(cpu.target_triple(HostOs::Linux), "x86_64-pc-linux-gnu");
    assert_eq!(cpu.mcpu(), "x86_64");
}

#[test]
fn override_values_are_trimmed_and_case_insensitive() {
    assert_eq!(GpuDevice::from_override("  NVIDIA \n"), Some(GpuDevice::new(Backend::Cuda, 0)));
    assert_eq!(GpuDevice::from_override("Rocm"), Some(GpuDevice::new(Backend::Rocm, 0)));
    assert_eq!(GpuDevice::from_override("amd"), Some(GpuDevice::new(Backend::Rocm, 0)));
    assert_eq!(GpuDevice::from_override("CUDA"), Some(GpuDevice::new(Backend::Cuda, 0)));
    assert_eq!(GpuDevice::from_override(" cpu"), Some(GpuDevice::new(Backend::Cpu, 0)));
    assert_eq!(GpuDevice::from_override("tpu"), None);
    assert_eq!(GpuDevice::from_override(""), None);
}

#[test]
fn override_wins_over_probe() {
    for probe in [false, true] {
        assert_eq!(GpuDevice::auto_detect(Some(Backend::Cpu), probe).backend, Backend::Cpu);
        assert_eq!(GpuDevice::auto_detect(Some(Backend::Cuda), probe).backend, Backend::Cuda);
    }
    assert_eq!(GpuDevice::auto_detect(None, true), GpuDevice::new(Backend::Rocm, 0));
    assert_eq!(GpuDevice::auto_detect(None, false), GpuDevice::new(Backend::Cpu, 0));
}

#[test]
fn status_and_device_checks() {
    assert_eq!(check_status(0, "hipInit"), Ok(()));
    assert_eq!(
        check_status(101, "hipMalloc"),
        Err(GpuError::HipCallFailed { call: "hipMalloc", code: 101 })
    );
    assert_eq!(select_device(2, 1), Ok(()));
    assert_eq!(select_device(2, 2), Err(GpuError::NoDevice));
    assert_eq!(select_device(0, 0), Err(GpuError::NoDevice));
    assert_eq!(select_device(3, -1), Err(GpuError::NoDevice));
}

#[test]
fn copy_size_must_match_exactly() {
    assert_eq!(check_copy_size(16, 16), Ok(()));
    assert_eq!(
        check_copy_size(16, 12),
        Err(GpuError::InvalidCopySize { expected: 16, actual: 12 })
    );
}

#[test]
fn first_missing_symbol_is_reported() {
    let mut found = vec![true; SYMBOL_COUNT];
    assert_eq!(resolve_symbols(&found), Ok(()));
    found[4] = false;
    found[6] = false;
    assert_eq!(resolve_symbols(&found), Err(GpuError::SymbolNotFound("hipMalloc")));
    assert_eq!(HipSymbol::at(7).name(), "hipDeviceSynchronize");
}

#[test]
fn binding_without_runtime_fails_early() {
    assert_eq!(
        bind_step(BindStage::CheckPlatform, &BindEvent::Supported(false), 0),
        Err(GpuError::UnsupportedPlatform)
    );
    assert_eq!(
        bind_step(BindStage::LoadLibrary, &BindEvent::Loaded(false), 0),
        Err(GpuError::LibraryNotFound)
    );
}

#[test]
fn binding_protocol_reaches_ready() {
    let steps = [
        (BindStage::CheckPlatform, BindEvent::Supported(true), BindStage::LoadLibrary),
        (BindStage::LoadLibrary, BindEvent::Loaded(true), BindStage::ResolveSymbols),
        (
            BindStage::ResolveSymbols,
            BindEvent::Resolved(vec![true; SYMBOL_COUNT]),
            BindStage::Initialize,
        ),
        (BindStage::Initialize, BindEvent::Status(0), BindStage::CountDevices),
        (BindStage::CountDevices, BindEvent::Count { code: 0, count: 2 }, BindStage::SelectDevice),
        (BindStage::SelectDevice, BindEvent::Status(0), BindStage::Ready),
    ];
    for (stage, event, next) in steps {
        assert_eq!(bind_step(stage, &event, 1), Ok(next));
    }
    assert_eq!(
        bind_step(BindStage::CountDevices, &BindEvent::Count { code: 0, count: 1 }, 1),
        Err(GpuError::NoDevice)
    );
    assert_eq!(
        bind_step(BindStage::Initialize, &BindEvent::Status(3), 0),
        Err(GpuError::HipCallFailed { call: "hipInit", code: 3 })
    );
}

#[test]
fn buffer_released_once() {
    let mut h = BufferHandle::new(0x1000, 64);
    assert_eq!(h.release(), Some(0x1000));
    assert_eq!(h.release(), None);
    assert_eq!(h.addr(), 0);
    assert_eq!(h.size_bytes(), 64);
}

#[test]
fn device_name_length_and_copy_codes() {
    let mut p = HipDeviceProp { name: [0; 256], _opaque: [0; 4096] };
    p.name[..4].copy_from_slice(b"gfx1");
    assert_eq!(p.name_len(), 4);
    p.name = [b'x'; 256];
    assert_eq!(p.name_len(), 256);
    assert_eq!(HipMemcpyKind::HostToDevice.code(), 1);
    assert_eq!(HipMemcpyKind::DeviceToHost.code(), 2);
    assert_eq!(HipMemcpyKind::Default.code(), 4);
}

#[test]
fn offload_targets_select_devices() {
    assert_eq!(GpuDevice::for_target("rocm"), Some(GpuDevice::new(Backend::Rocm, 0)));
    assert_eq!(GpuDevice::for_target("cuda"), Some(GpuDevice::new(Backend::Cuda, 0)));
    assert_eq!(GpuDevice::for_target("gpu"), None);
    assert_eq!(GpuDevice::for_target("ROCM"), Some(GpuDevice::new(Backend::Cpu, 0)));
    assert_eq!(GpuDevice::for_target("tpu"), Some(GpuDevice::new(Backend::Cpu, 0)));
}
