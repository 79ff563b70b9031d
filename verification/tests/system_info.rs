use amnia_desktop::system_info::{
    evaluate_model_fit, first_vram_reading, get_system_info, gpu_driver_name, parse_nvidia_smi, parse_sysfs_vram,
    read_vram_and_gpu, SystemInfo,
};

fn info(budget: u64, gpu: bool) -> SystemInfo {
    SystemInfo {
        ram_total_bytes: 16,
        ram_available_bytes: 8,
        vram_total_bytes: 0,
        gpu_detected: gpu,
        gpu_name: None,
        safe_budget_bytes: budget,
    }
}

#[test]
fn model_fit_decisions() {
    let f = evaluate_model_fit(&info(100, true), None);
    assert!(f.fits && f.warning.is_none());
    let f = evaluate_model_fit(&info(100, false), None);
    assert!(f.fits && f.warning.is_none());
    let f = evaluate_model_fit(&info(100, true), Some(101));
    assert!(!f.fits);
    assert_eq!(
        f.warning.as_deref(),
        Some("Warning: Model exceeds system capacity. Proceeding may cause crashes.")
    );
    let f = evaluate_model_fit(&info(100, false), Some(100));
    assert!(f.fits);
    assert_eq!(f.warning.as_deref(), Some("No GPU detected. Falling back to CPU (slower)."));
    let f = evaluate_model_fit(&info(100, true), Some(100));
    assert!(f.fits && f.warning.is_none());
}

#[test]
fn system_summary() {
    let s = get_system_info(16, 8, 0, None, 13);
    assert!(!s.gpu_detected);
    assert_eq!((s.ram_total_bytes, s.ram_available_bytes, s.vram_total_bytes, s.safe_budget_bytes), (16, 8, 0, 13));
    let s = get_system_info(16, 8, 0, Some("amdgpu".to_string()), 13);
    assert!(s.gpu_detected);
    assert_eq!(s.gpu_name.as_deref(), Some("amdgpu"));
    let s = get_system_info(16, 8, 4, None, 13);
    assert!(s.gpu_detected);
}

#[test]
fn gpu_reading_preference() {
    let nv = Some((8, "nv".to_string()));
    let sys = Some((4, "amdgpu".to_string()));
    assert_eq!(read_vram_and_gpu(nv.clone(), sys.clone()), (8, Some("nv".to_string())));
    assert_eq!(read_vram_and_gpu(None, sys), (4, Some("amdgpu".to_string())));
    assert_eq!(read_vram_and_gpu(None, None), (0, None));
}

#[test]
fn nvidia_output() {
    const MIB: u64 = 1024 * 1024;
    assert_eq!(
        parse_nvidia_smi("8192, NVIDIA GeForce RTX 3070\n"),
        Some((8192 * MIB, "NVIDIA GeForce RTX 3070".to_string()))
    );
    assert_eq!(
        parse_nvidia_smi("24576, NVIDIA A10, extra\r\n8192, second\n"),
        Some((24576 * MIB, "NVIDIA A10".to_string()))
    );
    assert_eq!(parse_nvidia_smi("+12,x"), Some((12 * MIB, "x".to_string())));
    assert_eq!(parse_nvidia_smi("12,"), Some((12 * MIB, "".to_string())));
    assert_eq!(parse_nvidia_smi("0, none"), Some((0, "none".to_string())));
    assert_eq!(parse_nvidia_smi("8192\n"), None);
    assert_eq!(parse_nvidia_smi("abc, name\n"), None);
    assert_eq!(parse_nvidia_smi(""), None);
    assert_eq!(parse_nvidia_smi("18446744073709551616, big"), None);
    // A total whose byte count overflows a u64 gives no reading.
    assert_eq!(parse_nvidia_smi("18446744073709551615, big"), None);
    assert_eq!(parse_nvidia_smi("17592186044416, big"), None);
    assert_eq!(
        parse_nvidia_smi("17592186044415, big"),
        Some((17592186044415 * MIB, "big".to_string()))
    );
}

#[test]
fn sysfs_values() {
    assert_eq!(parse_sysfs_vram("17163091968\n"), Some(17163091968));
    assert_eq!(parse_sysfs_vram("  42  "), Some(42));
    assert_eq!(parse_sysfs_vram("-1"), None);
    assert_eq!(parse_sysfs_vram(""), None);
    assert_eq!(parse_sysfs_vram("4 2"), None);
}

#[test]
fn driver_names() {
    assert_eq!(gpu_driver_name(None), "AMD/Intel GPU");
    assert_eq!(gpu_driver_name(Some("PCI_ID=1002:73BF\n")), "AMD/Intel GPU");
    assert_eq!(
        gpu_driver_name(Some("MAJOR=226\nDRIVER=amdgpu\nDRIVER=other\n")),
        "amdgpu"
    );
    assert_eq!(gpu_driver_name(Some("DRIVER=DRIVER=i915")), "i915");
    assert_eq!(gpu_driver_name(Some("DRIVER=")), "");
    assert_eq!(gpu_driver_name(Some(" DRIVER=x\n")), "AMD/Intel GPU");
}

#[test]
fn first_sysfs_entry_that_parses() {
    let contents = vec![
        None,
        Some("not a number\n".to_string()),
        Some("8589934592\n".to_string()),
        Some("4294967296\n".to_string()),
    ];
    assert_eq!(first_vram_reading(&contents), Some((2, 8589934592)));
    assert_eq!(first_vram_reading(&vec![None, Some("x".to_string())]), None);
    assert_eq!(first_vram_reading(&Vec::new()), None);
    assert_eq!(first_vram_reading(&vec![Some(" 7 ".to_string())]), Some((0, 7)));
}
