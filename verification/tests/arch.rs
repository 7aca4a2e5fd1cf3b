use sheng::arch::{self, avx2, avx512, Cpuid, Kernel, Target};
use sheng::shuffle::CHUNK;

#[test]
fn twice_as_many_slices_still_tile_a_chunk_exactly() {
    assert_eq!(avx2::STRIDE * avx2::WAYS, CHUNK);
    assert_eq!(avx2::WAYS % 2, 0, "each register carries exactly two slices");
}

#[test]
fn four_times_as_many_slices_still_tile_a_chunk_exactly() {
    assert_eq!(avx512::STRIDE * avx512::WAYS, CHUNK);
    assert_eq!(avx512::WAYS % 4, 0, "each register carries exactly four slices");
}

fn bare() -> Cpuid {
    Cpuid {
        max_leaf: 0,
        ecx1: 0,
        ebx7: 0,
        xcr0: 0,
        compiled_ssse3: false,
        compiled_avx2: false,
        compiled_avx512: false,
    }
}

#[test]
fn every_code_round_trips_and_nothing_else_decodes() {
    for (i, k) in Kernel::all().into_iter().enumerate() {
        assert_eq!(k.code(), i as u8 + 1);
        assert_eq!(Kernel::decode(k.code()), Some(k));
    }
    assert_eq!(Kernel::decode(0), None);
    assert_eq!(Kernel::decode(7), None);
    assert_eq!(Kernel::decode(255), None);
    assert!(!Kernel::Scalar.is_vector());
    assert!(Kernel::Neon.is_vector());
}

#[test]
fn the_ladder_runs_fastest_first_and_ends_scalar() {
    assert_eq!(arch::available(Target::Aarch64, &bare()), vec![Kernel::Neon, Kernel::Scalar]);
    assert_eq!(arch::available(Target::Other, &bare()), vec![Kernel::Scalar]);
    assert_eq!(arch::available(Target::X86_64, &bare()), vec![Kernel::Scalar]);
    let ssse3 = Cpuid { max_leaf: 1, ecx1: arch::SSSE3_BIT, ..bare() };
    assert_eq!(arch::available(Target::X86_64, &ssse3), vec![Kernel::Ssse3, Kernel::Scalar]);
    let avx2 = Cpuid {
        max_leaf: 7,
        ecx1: arch::SSSE3_BIT | arch::OSXSAVE_BIT | arch::AVX_BIT,
        ebx7: arch::AVX2_BIT,
        xcr0: arch::XCR0_YMM,
        ..bare()
    };
    assert_eq!(
        arch::available(Target::X86_64, &avx2),
        vec![Kernel::Avx2, Kernel::Ssse3, Kernel::Scalar]
    );
    let avx512 = Cpuid {
        ebx7: arch::AVX2_BIT | arch::AVX512F_BIT | arch::AVX512BW_BIT,
        xcr0: arch::XCR0_ZMM,
        ..avx2
    };
    assert_eq!(
        arch::available(Target::X86_64, &avx512),
        vec![Kernel::Avx512, Kernel::Avx2, Kernel::Ssse3, Kernel::Scalar]
    );
}

#[test]
fn a_feature_bit_without_the_operating_systems_promise_is_not_enough() {
    let unsaved = Cpuid {
        max_leaf: 7,
        ecx1: arch::SSSE3_BIT | arch::AVX_BIT,
        ebx7: arch::AVX2_BIT,
        xcr0: arch::XCR0_YMM,
        ..bare()
    };
    assert!(!arch::has_avx2(&unsaved));
    assert!(arch::has_ssse3(&unsaved));
    let half_saved = Cpuid {
        ecx1: arch::OSXSAVE_BIT | arch::AVX_BIT,
        ebx7: arch::AVX512F_BIT | arch::AVX512BW_BIT,
        xcr0: arch::XCR0_YMM,
        ..unsaved
    };
    assert!(!arch::has_avx512(&half_saved));
    let compiled = Cpuid { compiled_avx2: true, ..bare() };
    assert!(arch::has_avx2(&compiled));
    let short = Cpuid { max_leaf: 6, ..half_saved };
    assert!(!arch::has_avx2(&short));
}

#[test]
fn dispatch_elects_the_cheapest_priced_kernel_not_the_widest() {
    let ladder = [Kernel::Avx512, Kernel::Avx2, Kernel::Ssse3, Kernel::Scalar];
    // The Windows x86_64 rows: the 64-byte kernel measured slower than the 32-byte one.
    let cost = |ns_per_byte: f64| ns_per_byte.to_bits();
    let rows = [
        ("windows", "x86_64", Kernel::Avx512, cost(0.458317)),
        ("windows", "x86_64", Kernel::Avx2, cost(0.375878)),
        ("windows", "x86_64", Kernel::Ssse3, cost(0.436670)),
        ("linux", "aarch64", Kernel::Neon, cost(0.3)),
    ];
    assert_eq!(arch::kernel(0, &ladder, "windows", "x86_64", &rows), Kernel::Avx2);
    // The same architecture on an operating system nobody measured: nothing is priced,
    // so the fastest available, not the slowest.
    assert_eq!(arch::kernel(0, &ladder, "linux", "x86_64", &rows), Kernel::Avx512);
    assert_eq!(arch::kernel(0, &ladder, "windows", "riscv64", &rows), Kernel::Avx512);
    // A resolved answer is the answer.
    assert_eq!(arch::kernel(Kernel::Scalar.code(), &ladder, "windows", "x86_64", &rows), Kernel::Scalar);
    assert_eq!(arch::cost_of(Kernel::Neon, "linux", "aarch64", &rows), Some(cost(0.3)));
    assert_eq!(arch::cost_of(Kernel::Neon, "windows", "x86_64", &rows), None);
}

#[test]
fn a_tie_in_price_goes_to_the_earlier_rung() {
    let ladder = [Kernel::Avx512, Kernel::Avx2, Kernel::Ssse3, Kernel::Scalar];
    let rows = [
        ("linux", "x86_64", Kernel::Ssse3, 7u64),
        ("linux", "x86_64", Kernel::Avx2, 7u64),
        // A second row for a kernel already priced is not read.
        ("linux", "x86_64", Kernel::Ssse3, 1u64),
    ];
    assert_eq!(arch::kernel(0, &ladder, "linux", "x86_64", &rows), Kernel::Avx2);
    assert_eq!(arch::cost_of(Kernel::Ssse3, "linux", "x86_64", &rows), Some(7));
}

#[test]
fn forcing_a_kernel_the_silicon_cannot_run_is_refused() {
    let ladder = [Kernel::Ssse3, Kernel::Scalar];
    assert!(arch::force(&ladder, Kernel::Scalar));
    assert!(arch::force(&ladder, Kernel::Ssse3));
    for k in Kernel::all() {
        assert_eq!(arch::force(&ladder, k), ladder.contains(&k));
    }
}

#[test]
fn strings_compare_by_their_bytes() {
    assert!(arch::same_str("linux", "linux"));
    assert!(!arch::same_str("linux", "linu"));
    assert!(!arch::same_str("macos", "linux"));
    assert!(arch::same_str("", ""));
}
