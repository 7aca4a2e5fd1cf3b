use sheng::arch::Kernel;
use sheng::price::{Bench, Dormant, Residency, Unmeasurable, MEASURABLE_ABOVE, RESIDENT_ABOVE, ROUNDS};

#[test]
fn a_working_set_past_last_level_cache_reads_as_memory_resident() {
    for (bytes, want) in [
        (0, Residency::Cache),
        (RESIDENT_ABOVE, Residency::Cache),
        (RESIDENT_ABOVE + 1, Residency::Memory),
        (usize::MAX, Residency::Memory),
    ] {
        assert_eq!(Residency::of_working_set(bytes), want, "{bytes} bytes");
    }
}

#[test]
fn the_regimes_are_indexed_in_order() {
    let all = Residency::all();
    assert_eq!(all, [Residency::Cache, Residency::Memory]);
    assert_eq!(Residency::Cache.index(), 0);
    assert_eq!(Residency::Memory.index(), 1);
    assert_eq!(RESIDENT_ABOVE, 8 * 1024 * 1024);
}

#[test]
fn a_bench_counts_its_bytes_and_reads_zero_rounds_as_one() {
    let a = vec![b'a'; 1000];
    let b = vec![b'b'; 24];
    let docs: [&[u8]; 2] = [&a, &b];
    let bench = Bench::new(&docs);
    assert_eq!(bench.round_count(), ROUNDS);
    assert_eq!(bench.bytes(), 1024);
    assert_eq!(bench.regime(), Residency::Cache);
    assert_eq!(bench.rounds(0).round_count(), 1);
    assert_eq!(bench.rounds(3).round_count(), 3);
    assert_eq!(bench.rounds(3).bytes(), 1024);
    let none: [&[u8]; 0] = [];
    assert_eq!(Bench::new(&none).bytes(), 0);
}

#[test]
fn a_sample_too_small_or_holding_the_sentinel_is_refused() {
    let small = vec![b'a'; 100];
    let docs: [&[u8]; 1] = [&small];
    assert_eq!(
        Bench::new(&docs).vet(),
        Err(Unmeasurable::TooFewBytes { bytes: 100, floor: MEASURABLE_ABOVE })
    );
    let big = vec![b'a'; MEASURABLE_ABOVE];
    let docs: [&[u8]; 1] = [&big];
    assert_eq!(Bench::new(&docs).vet(), Ok(()));
    let mut tainted = vec![b'a'; 10];
    tainted.extend_from_slice(b"\x00\x01zz");
    let docs: [&[u8]; 2] = [&big, &tainted];
    assert_eq!(Bench::new(&docs).vet(), Err(Unmeasurable::ProbeMatched));
    // The spelling of the sentinel is not the sentinel.
    let spelled = b"\\x00\\x01zz".to_vec();
    let docs: [&[u8]; 2] = [&big, &spelled];
    assert_eq!(Bench::new(&docs).vet(), Ok(()));
}

#[test]
fn a_dormant_entry_speaks_for_the_machines_it_names() {
    let everywhere = Dormant { os: None, arch: None, kernel: Kernel::Avx512, why: "nobody minted it" };
    assert!(everywhere.covers("linux", "x86_64"));
    assert!(everywhere.covers("", ""));
    let linux = Dormant { os: Some("linux"), arch: Some("x86_64"), kernel: Kernel::Avx512, why: "fleet" };
    assert!(linux.covers("linux", "x86_64"));
    assert!(!linux.covers("windows", "x86_64"));
    assert!(!linux.covers("linux", "aarch64"));
    let any_os = Dormant { os: None, arch: Some("aarch64"), kernel: Kernel::Neon, why: "" };
    assert!(any_os.covers("macos", "aarch64"));
    assert!(!any_os.covers("macos", "x86_64"));
}
