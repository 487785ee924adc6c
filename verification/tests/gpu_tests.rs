use ctxvault::gpu::{adapter_memory, best_adapter, detect_gpu, detect_gpu_vram_mb, device_override, AdapterListing};

#[test]
fn device_override_reads_signed_integers_only() {
    assert_eq!(device_override("1"), Some(1));
    assert_eq!(device_override("+7"), Some(7));
    assert_eq!(device_override("-2"), Some(-2));
    assert_eq!(device_override("007"), Some(7));
    assert_eq!(device_override("2147483647"), Some(i32::MAX));
    assert_eq!(device_override("-2147483648"), Some(i32::MIN));
    assert_eq!(device_override("2147483648"), None);
    assert_eq!(device_override("99999999999999999999"), None);
    assert_eq!(device_override(""), None);
    assert_eq!(device_override("-"), None);
    assert_eq!(device_override(" 1"), None);
    assert_eq!(device_override("1a"), None);
    for s in ["0", "12", "-12", "+0", "x", "", "--1", "2147483647", "-2147483649"] {
        assert_eq!(device_override(s), s.parse::<i32>().ok(), "{s}");
    }
}

#[test]
fn best_adapter_takes_the_first_with_most_memory() {
    let gib = 1024u64 * 1024 * 1024;
    assert_eq!(best_adapter(&[gib, 8 * gib, 8 * gib]), (1, 8192));
    assert_eq!(best_adapter(&[0, 0]), (0, 1024));
    assert_eq!(best_adapter(&[]), (0, 1024));
    assert_eq!(best_adapter(&[0, 1024 * 1024 * 3 + 5]), (1, 3));
}

#[test]
fn adapter_memory_reads_unknown_sizes_as_zero() {
    assert_eq!(adapter_memory(&AdapterListing::Many(vec![Some(5), None, Some(9)])), vec![5, 0, 9]);
    assert_eq!(adapter_memory(&AdapterListing::One(None)), vec![0]);
    assert_eq!(adapter_memory(&AdapterListing::Neither), Vec::<u64>::new());
}

#[test]
fn detect_gpu_reads_the_controller_listing() {
    let listing = r#"[{"Name":"Intel UHD","AdapterRAM":1073741824},{"Name":"NVIDIA RTX","AdapterRAM":4293918720}]"#;
    assert_eq!(detect_gpu(Some(listing)), (1, 4095));
    let single = r#"{"Name":"AMD","AdapterRAM":2147483648}"#;
    assert_eq!(detect_gpu(Some(single)), (0, 2048));
    assert_eq!(detect_gpu(Some(r#"[{"Name":"Basic"}]"#)), (0, 1024));
    assert_eq!(detect_gpu(Some("not json")), (0, 1024));
    assert_eq!(detect_gpu(Some("42")), (0, 1024));
    assert_eq!(detect_gpu(None), (0, 1024));
    assert_eq!(detect_gpu_vram_mb(Some((1, 4095))), 4095);
    assert_eq!(detect_gpu_vram_mb(None), 1024);
}
