use minidox::vmm::is_supported_host;

#[test]
fn host_support_matches_linux_kvm_requirement() {
    assert!(is_supported_host("linux"));
    assert!(!is_supported_host("macos"));
    assert!(!is_supported_host("windows"));
    assert!(!is_supported_host(""));
}
