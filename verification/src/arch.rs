//! Which byte-shuffle instruction set the composition kernel runs on, decided from what
//! the target is, what the silicon reports, and what has actually been priced — so the
//! composition kernel and the nibble classifier can never independently disagree about
//! the target's silicon.
//!
//! # The crate does not run a kernel it has not priced
//!
//! [`available`] reports every kernel the silicon can execute, widest first; [`kernel`]
//! returns the one this machine's calibration rows price cheapest, so a wider register
//! that measured slower does not win. An unpriced
//! kernel is simply not selected, so adding one cannot move a single arming decision
//! until somebody mints it. [`force`] is the only way to reach one.
//!
//! A wider register buys more slices of the same sixteen-block machine rather than a
//! bigger one, so [`avx2`] and [`avx512`] carry their own slice counts beside the
//! kernel that uses them.

pub mod avx2;
pub mod avx512;

use vstd::prelude::*;
use vstd::string::StringSliceAdditionalSpecFns;

verus! {

/// Which byte-shuffle instruction set backs the sieve on this target.
#[derive(Debug, Clone, Copy, PartialEq, Eq, Structural)]
pub enum Kernel {
    /// `vpshufb` on `zmm`: four 16-lane slices per register.
    Avx512,
    /// `vpshufb` on `ymm`: two 16-lane slices per register.
    Avx2,
    /// `vqtbl1q_u8`, baseline on every `aarch64`.
    Neon,
    /// `pshufb`.
    Ssse3,
    /// `u8x16_swizzle` on `wasm32`.
    Simd128,
    /// No byte shuffle on this target: the reference path is the shipping path.
    Scalar,
}

/// A kernel's place in [`Kernel::all`], fastest first.
pub open spec fn rank(k: Kernel) -> int {
    match k {
        Kernel::Avx512 => 0,
        Kernel::Avx2 => 1,
        Kernel::Neon => 2,
        Kernel::Ssse3 => 3,
        Kernel::Simd128 => 4,
        Kernel::Scalar => 5,
    }
}

/// The kernel a cache code names: `0` is "nothing resolved yet", so a kernel's code is
/// its rank shifted past it.
pub open spec fn decoded(code: u8) -> Option<Kernel> {
    if code == 1 {
        Some(Kernel::Avx512)
    } else if code == 2 {
        Some(Kernel::Avx2)
    } else if code == 3 {
        Some(Kernel::Neon)
    } else if code == 4 {
        Some(Kernel::Ssse3)
    } else if code == 5 {
        Some(Kernel::Simd128)
    } else if code == 6 {
        Some(Kernel::Scalar)
    } else {
        None
    }
}

impl Kernel {
    /// Does this kernel shuffle whole registers of lanes at a time?
    pub fn is_vector(self) -> (r: bool)
        ensures
            r == (self != Kernel::Scalar),
    {
        !matches!(self, Kernel::Scalar)
    }

    /// The kernel's cache code: its rank, shifted past the `0` that means "nothing
    /// resolved yet".
    pub fn code(self) -> (r: u8)
        ensures
            r == rank(self) + 1,
    {
        match self {
            Kernel::Avx512 => 1,
            Kernel::Avx2 => 2,
            Kernel::Neon => 3,
            Kernel::Ssse3 => 4,
            Kernel::Simd128 => 5,
            Kernel::Scalar => 6,
        }
    }

    /// The kernel a cache code names, or `None` for one that names nothing.
    pub fn decode(code: u8) -> (r: Option<Kernel>)
        ensures
            r == decoded(code),
    {
        match code {
            1 => Some(Kernel::Avx512),
            2 => Some(Kernel::Avx2),
            3 => Some(Kernel::Neon),
            4 => Some(Kernel::Ssse3),
            5 => Some(Kernel::Simd128),
            6 => Some(Kernel::Scalar),
            _ => None,
        }
    }

    /// Every variant, fastest first, so a test can sweep the ones this silicon cannot
    /// run and hold [`force`] to refusing them.
    pub fn all() -> (r: [Kernel; 6])
        ensures
            forall|i: int| 0 <= i < 6 ==> rank(#[trigger] r[i]) == i,
    {
        [Kernel::Avx512, Kernel::Avx2, Kernel::Neon, Kernel::Ssse3, Kernel::Simd128, Kernel::Scalar]
    }
}

/// Decoding undoes encoding, and a code names a kernel only if it is one's code: the
/// cache can neither forget a kernel nor invent one.
pub proof fn lemma_code_round_trips(k: Kernel, code: u8)
    ensures
        decoded((rank(k) + 1) as u8) == Some(k),
        decoded(code) matches Some(j) ==> code == rank(j) + 1,
        decoded(code) is None <==> (code == 0 || code > 6),
{
}

/// What `cfg` says about the target before any probe runs.
#[derive(Debug, Clone, Copy, PartialEq, Eq, Structural)]
pub enum Target {
    /// `aarch64`: NEON is baseline.
    Aarch64,
    /// `x86_64` with SSE2 enabled: the shuffles are probed at run time.
    X86_64,
    /// `wasm32` built with `simd128`: decided at compile time, since a guest cannot ask.
    Wasm32Simd128,
    /// Anything else: no byte shuffle.
    Other,
}

/// What the x86 feature probes read: `CPUID` leaf 0's highest leaf, leaf 1's `ECX`,
/// leaf 7's `EBX`, `XCR0` (read only once `OSXSAVE` says it may be, zero otherwise), and
/// which of the three instruction sets the build was told it may use outright.
#[derive(Debug, Clone, Copy)]
pub struct Cpuid {
    /// `CPUID.00H:EAX`, the highest leaf that exists.
    pub max_leaf: u32,
    /// `CPUID.01H:ECX`.
    pub ecx1: u32,
    /// `CPUID.07H:EBX`.
    pub ebx7: u32,
    /// `XCR0`, the extended state the operating system saves.
    pub xcr0: u64,
    /// The build enables `ssse3` at compile time.
    pub compiled_ssse3: bool,
    /// The build enables `avx2` at compile time.
    pub compiled_avx2: bool,
    /// The build enables both `avx512f` and `avx512bw` at compile time.
    pub compiled_avx512: bool,
}

/// `CPUID.01H:ECX` bit 9.
pub const SSSE3_BIT: u32 = 0x200;
/// `CPUID.01H:ECX` bit 27: the OS turned `XSAVE` on, so `XCR0` says something.
pub const OSXSAVE_BIT: u32 = 0x800_0000;
/// `CPUID.01H:ECX` bit 28: the silicon has 256-bit registers.
pub const AVX_BIT: u32 = 0x1000_0000;
/// `CPUID.07H:EBX` bit 5.
pub const AVX2_BIT: u32 = 0x20;
/// `CPUID.07H:EBX` bit 16: 512-bit registers and the opmasks.
pub const AVX512F_BIT: u32 = 0x1_0000;
/// `CPUID.07H:EBX` bit 30: byte and word lanes.
pub const AVX512BW_BIT: u32 = 0x4000_0000;
/// `XCR0` bits 1 and 2: the OS preserves the SSE state and the upper `ymm` halves.
pub const XCR0_YMM: u64 = 0b110;
/// [`XCR0_YMM`] and bits 5, 6 and 7: the opmasks and both widened `zmm` halves.
pub const XCR0_ZMM: u64 = 0b1110_0110;

/// The operating system has promised to preserve `state` across a context switch:
/// `OSXSAVE` and `AVX` are both reported, and `XCR0` holds every bit of `state`.
pub open spec fn preserved_spec(cpu: Cpuid, state: u64) -> bool {
    &&& cpu.ecx1 & (OSXSAVE_BIT | AVX_BIT) == OSXSAVE_BIT | AVX_BIT
    &&& cpu.xcr0 & state == state
}

/// SSSE3 is usable: compiled in, or leaf 1 exists and reports it.
pub open spec fn ssse3_spec(cpu: Cpuid) -> bool {
    cpu.compiled_ssse3 || (cpu.max_leaf >= 1 && cpu.ecx1 & SSSE3_BIT != 0)
}

/// AVX2 is usable: compiled in, or leaf 7 exists, the OS saves the `ymm` state, and
/// leaf 7 reports it.
pub open spec fn avx2_spec(cpu: Cpuid) -> bool {
    cpu.compiled_avx2 || (cpu.max_leaf >= 7 && preserved_spec(cpu, XCR0_YMM) && cpu.ebx7
        & AVX2_BIT != 0)
}

/// AVX-512 is usable: compiled in, or leaf 7 exists, the OS saves the `zmm` state, and
/// leaf 7 reports both the foundation and the byte lanes.
pub open spec fn avx512_spec(cpu: Cpuid) -> bool {
    cpu.compiled_avx512 || (cpu.max_leaf >= 7 && preserved_spec(cpu, XCR0_ZMM) && cpu.ebx7
        & (AVX512F_BIT | AVX512BW_BIT) == AVX512F_BIT | AVX512BW_BIT)
}

/// Has the operating system promised to preserve `state` across a context switch?
fn preserved(cpu: &Cpuid, state: u64) -> (r: bool)
    ensures
        r == preserved_spec(*cpu, state),
{
    cpu.ecx1 & (OSXSAVE_BIT | AVX_BIT) == OSXSAVE_BIT | AVX_BIT && cpu.xcr0 & state == state
}

/// SSSE3 is a plain leaf-1 bit with no operating-system participation.
pub fn has_ssse3(cpu: &Cpuid) -> (r: bool)
    ensures
        r == ssse3_spec(*cpu),
{
    cpu.compiled_ssse3 || (cpu.max_leaf >= 1 && cpu.ecx1 & SSSE3_BIT != 0)
}

/// AVX2 needs the silicon's bit and the operating system's promise to save `ymm`.
pub fn has_avx2(cpu: &Cpuid) -> (r: bool)
    ensures
        r == avx2_spec(*cpu),
{
    if cpu.compiled_avx2 {
        return true;
    }
    if cpu.max_leaf < 7 || !preserved(cpu, XCR0_YMM) {
        return false;
    }
    cpu.ebx7 & AVX2_BIT != 0
}

/// AVX-512 needs both leaf-7 bits and all five `XCR0` bits.
pub fn has_avx512(cpu: &Cpuid) -> (r: bool)
    ensures
        r == avx512_spec(*cpu),
{
    if cpu.compiled_avx512 {
        return true;
    }
    if cpu.max_leaf < 7 || !preserved(cpu, XCR0_ZMM) {
        return false;
    }
    let want = AVX512F_BIT | AVX512BW_BIT;
    cpu.ebx7 & want == want
}

/// Every kernel a `target` with the probed `cpu` can execute, fastest first.
pub open spec fn ladder(target: Target, cpu: Cpuid) -> Seq<Kernel> {
    match target {
        Target::Aarch64 => seq![Kernel::Neon, Kernel::Scalar],
        Target::X86_64 => if avx512_spec(cpu) {
            seq![Kernel::Avx512, Kernel::Avx2, Kernel::Ssse3, Kernel::Scalar]
        } else if avx2_spec(cpu) {
            seq![Kernel::Avx2, Kernel::Ssse3, Kernel::Scalar]
        } else if ssse3_spec(cpu) {
            seq![Kernel::Ssse3, Kernel::Scalar]
        } else {
            seq![Kernel::Scalar]
        },
        Target::Wasm32Simd128 => seq![Kernel::Simd128, Kernel::Scalar],
        Target::Other => seq![Kernel::Scalar],
    }
}

/// Every kernel this silicon can actually execute, **fastest first** and always ending
/// in [`Kernel::Scalar`], which every target can run.
pub fn available(target: Target, cpu: &Cpuid) -> (r: Vec<Kernel>)
    ensures
        r@ == ladder(target, *cpu),
{
    let r = match target {
        Target::Aarch64 => vec![Kernel::Neon, Kernel::Scalar],
        Target::X86_64 => if has_avx512(cpu) {
            vec![Kernel::Avx512, Kernel::Avx2, Kernel::Ssse3, Kernel::Scalar]
        } else if has_avx2(cpu) {
            vec![Kernel::Avx2, Kernel::Ssse3, Kernel::Scalar]
        } else if has_ssse3(cpu) {
            vec![Kernel::Ssse3, Kernel::Scalar]
        } else {
            vec![Kernel::Scalar]
        },
        Target::Wasm32Simd128 => vec![Kernel::Simd128, Kernel::Scalar],
        Target::Other => vec![Kernel::Scalar],
    };
    proof {
        assert(r@ =~= ladder(target, *cpu));
    }
    r
}

/// Every ladder is nonempty, runs fastest first, and ends in the scalar path.
pub proof fn lemma_ladder_shape(target: Target, cpu: Cpuid)
    ensures
        ladder(target, cpu).len() >= 1,
        ladder(target, cpu).last() == Kernel::Scalar,
        forall|i: int, j: int|
            0 <= i < j < ladder(target, cpu).len() ==> rank(#[trigger] ladder(target, cpu)[i])
                < rank(#[trigger] ladder(target, cpu)[j]),
{
}

/// The ladder lists every kernel the target can execute and no other: the scalar path
/// everywhere, NEON exactly on `aarch64`, `simd128` exactly on a `wasm32` build with it,
/// and on `x86_64` SSSE3 wherever SSSE3 or a wider shuffle is usable, AVX2 wherever AVX2
/// or AVX-512 is, and AVX-512 wherever it is. [`available`] returns the ladder.
pub proof fn lemma_ladder_lists_every_runnable_kernel(target: Target, cpu: Cpuid)
    ensures
        ladder(target, cpu).contains(Kernel::Scalar),
        ladder(target, cpu).contains(Kernel::Neon) <==> target == Target::Aarch64,
        ladder(target, cpu).contains(Kernel::Simd128) <==> target == Target::Wasm32Simd128,
        ladder(target, cpu).contains(Kernel::Ssse3) <==> (target == Target::X86_64 && (ssse3_spec(
            cpu,
        ) || avx2_spec(cpu) || avx512_spec(cpu))),
        ladder(target, cpu).contains(Kernel::Avx2) <==> (target == Target::X86_64 && (avx2_spec(
            cpu,
        ) || avx512_spec(cpu))),
        ladder(target, cpu).contains(Kernel::Avx512) <==> (target == Target::X86_64
            && avx512_spec(cpu)),
{
    let l = ladder(target, cpu);
    assert(l[l.len() - 1] == Kernel::Scalar);
    assert(l.len() >= 1);
    assert forall|k: Kernel| l.contains(k) <==> exists|i: int| 0 <= i < l.len() && l[i] == k by {}
    if l.len() >= 2 {
        assert(l[0] == l[0] && l[1] == l[1]);
    }
    if l.len() >= 3 {
        assert(l[2] == l[2]);
    }
    if l.len() >= 4 {
        assert(l[3] == l[3]);
    }
}

/// Two strings are the same bytes.
pub fn same_str(a: &str, b: &str) -> (r: bool)
    ensures
        r == (a.spec_bytes() == b.spec_bytes()),
{
    let x = a.as_bytes();
    let y = b.as_bytes();
    if x.len() != y.len() {
        return false;
    }
    let mut i: usize = 0;
    while i < x.len()
        invariant
            x@ == a.spec_bytes(),
            y@ == b.spec_bytes(),
            x@.len() == y@.len(),
            i <= x@.len(),
            forall|j: int| 0 <= j < i ==> #[trigger] x@[j] == y@[j],
        decreases x@.len() - i,
    {
        if x[i] != y[i] {
            assert(x@[i as int] != y@[i as int]);
            return false;
        }
        i += 1;
    }
    assert(x@ =~= y@);
    true
}

/// A minted row's key and price: the operating system and the architecture it was
/// measured on, the kernel it prices, and that kernel's sieve cost as an integer that
/// orders as the cost does.
pub type Row<'a> = (&'a str, &'a str, Kernel, u64);

/// `row` prices `kernel` on `os` and `arch`.
pub open spec fn prices(row: Row, kernel: Kernel, os: &str, arch: &str) -> bool {
    &&& row.0.spec_bytes() == os.spec_bytes()
    &&& row.1.spec_bytes() == arch.spec_bytes()
    &&& row.2 == kernel
}

/// The cost the first row of `rows` that prices `kernel` on `os` and `arch` reports, or
/// `None` when no row does.
pub open spec fn cost_in(kernel: Kernel, os: &str, arch: &str, rows: Seq<Row>) -> Option<u64>
    decreases rows.len(),
{
    if rows.len() == 0 {
        None
    } else {
        match cost_in(kernel, os, arch, rows.drop_last()) {
            Some(c) => Some(c),
            None => if prices(rows.last(), kernel, os, arch) {
                Some(rows.last().3)
            } else {
                None
            },
        }
    }
}

/// Rung `i` of `ladder` is the one to elect: it is priced, and no other priced rung is
/// cheaper, or as cheap and earlier.
pub open spec fn cheapest_at(ladder: Seq<Kernel>, os: &str, arch: &str, rows: Seq<Row>, i: int) -> bool {
    &&& 0 <= i < ladder.len()
    &&& cost_in(ladder[i], os, arch, rows) is Some
    &&& forall|j: int|
        0 <= j < ladder.len() && #[trigger] cost_in(ladder[j], os, arch, rows) is Some ==> {
            ||| cost_in(ladder[i], os, arch, rows)->0 < cost_in(ladder[j], os, arch, rows)->0
            ||| (cost_in(ladder[i], os, arch, rows)->0 == cost_in(ladder[j], os, arch, rows)->0
                && i <= j)
        }
}

/// Some rung of `ladder` is priced.
pub open spec fn any_priced(ladder: Seq<Kernel>, os: &str, arch: &str, rows: Seq<Row>) -> bool {
    exists|j: int| 0 <= j < ladder.len() && #[trigger] cost_in(ladder[j], os, arch, rows) is Some
}

/// What `rows` say `kernel` costs on `os` and `arch`: the first row that prices it, or
/// `None` when no row does.
pub fn cost_of(kernel: Kernel, os: &str, arch: &str, rows: &[Row]) -> (r: Option<u64>)
    ensures
        r == cost_in(kernel, os, arch, rows@),
{
    let mut i: usize = 0;
    while i < rows.len()
        invariant
            i <= rows@.len(),
            cost_in(kernel, os, arch, rows@.take(i as int)) is None,
        decreases rows@.len() - i,
    {
        proof {
            assert(rows@.take(i + 1).drop_last() =~= rows@.take(i as int));
        }
        let (row_os, row_arch, row_kernel, cost) = rows[i];
        if same_str(row_os, os) && same_str(row_arch, arch) && row_kernel == kernel {
            proof {
                lemma_cost_prefix(kernel, os, arch, rows@, i + 1);
            }
            return Some(cost);
        }
        i += 1;
    }
    proof {
        assert(rows@.take(rows@.len() as int) =~= rows@);
    }
    None
}

/// Once a prefix of the rows prices a kernel, the rest of the rows change nothing.
proof fn lemma_cost_prefix(kernel: Kernel, os: &str, arch: &str, rows: Seq<Row>, m: int)
    requires
        0 <= m <= rows.len(),
        cost_in(kernel, os, arch, rows.take(m)) is Some,
    ensures
        cost_in(kernel, os, arch, rows) == cost_in(kernel, os, arch, rows.take(m)),
    decreases rows.len() - m,
{
    if m < rows.len() {
        assert(rows.take(m + 1).drop_last() =~= rows.take(m));
        lemma_cost_prefix(kernel, os, arch, rows, m + 1);
    } else {
        assert(rows.take(m) =~= rows);
    }
}

/// The election is one rung: two rungs that each beat every priced rung are the same.
pub proof fn lemma_election_is_unique(
    ladder: Seq<Kernel>,
    os: &str,
    arch: &str,
    rows: Seq<Row>,
    i: int,
    j: int,
)
    requires
        cheapest_at(ladder, os, arch, rows, i),
        cheapest_at(ladder, os, arch, rows, j),
    ensures
        i == j,
{
    assert(cost_in(ladder[j], os, arch, rows) is Some);
    assert(cost_in(ladder[i], os, arch, rows) is Some);
}

/// Which kernel every dispatch point will run here.
///
/// `memo` is what an earlier call resolved, as a [`Kernel::code`], or `0` when nothing
/// was; a code that names a kernel is the answer. Otherwise the answer is the rung of
/// `ladder` (what [`available`] reported) that `rows` price cheapest on this `os` and
/// `arch`, the earlier rung on a tie, so a wider register that measured slower does not
/// win. When nothing is priced at all it is the fastest available kernel rather than
/// [`Kernel::Scalar`]: an unpriced machine declines every pattern, so there is no arming
/// decision left to protect.
pub fn kernel(memo: u8, ladder: &[Kernel], os: &str, arch: &str, rows: &[Row]) -> (r: Kernel)
    requires
        ladder@.len() >= 1,
    ensures
        decoded(memo) matches Some(k) ==> r == k,
        decoded(memo) is None && any_priced(ladder@, os, arch, rows@) ==> exists|i: int|
            cheapest_at(ladder@, os, arch, rows@, i) && r == ladder@[i],
        decoded(memo) is None && !any_priced(ladder@, os, arch, rows@) ==> r == ladder@[0],
{
    if let Some(known) = Kernel::decode(memo) {
        return known;
    }
    let mut best: Option<(usize, u64)> = None;
    let mut i: usize = 0;
    while i < ladder.len()
        invariant
            i <= ladder@.len(),
            best is None ==> forall|j: int|
                0 <= j < i ==> #[trigger] cost_in(ladder@[j], os, arch, rows@) is None,
            best matches Some((b, c)) ==> {
                &&& b < i
                &&& cost_in(ladder@[b as int], os, arch, rows@) == Some(c)
                &&& forall|j: int|
                    0 <= j < i && #[trigger] cost_in(ladder@[j], os, arch, rows@) is Some ==> {
                        ||| c < cost_in(ladder@[j], os, arch, rows@)->0
                        ||| (c == cost_in(ladder@[j], os, arch, rows@)->0 && b <= j)
                    }
            },
        decreases ladder@.len() - i,
    {
        match cost_of(ladder[i], os, arch, rows) {
            Some(c) => {
                let better = match best {
                    None => true,
                    Some((_, held)) => c < held,
                };
                if better {
                    best = Some((i, c));
                }
            },
            None => {},
        }
        i += 1;
    }
    match best {
        Some((b, _)) => {
            proof {
                assert(cheapest_at(ladder@, os, arch, rows@, b as int));
            }
            ladder[b]
        },
        None => ladder[0],
    }
}

/// May every dispatch point run `kernel`? Only a kernel the silicon can execute, one in
/// `ladder`; anything else is refused, which is what keeps forcing a kernel a safe
/// operation rather than a promise.
pub fn force(ladder: &[Kernel], kernel: Kernel) -> (r: bool)
    ensures
        r == ladder@.contains(kernel),
{
    let mut i: usize = 0;
    while i < ladder.len()
        invariant
            i <= ladder@.len(),
            forall|j: int| 0 <= j < i ==> #[trigger] ladder@[j] != kernel,
        decreases ladder@.len() - i,
    {
        if ladder[i] == kernel {
            assert(ladder@[i as int] == kernel);
            return true;
        }
        i += 1;
    }
    false
}

} // verus!
