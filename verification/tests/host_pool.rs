use vhost_user_nvrm::abi::UvmNumbers;
use vhost_user_nvrm::guest_words::{GuestAddr, GuestLen};
use vhost_user_nvrm::host_pool::{
    free_params, max_pin_bytes, page_size, parse_pin_bytes, registration_bytes, uvm_outcome, Arena,
    Backing, Chore, GpaRun, PinBudget, PoolError, Region, Select, Sweep, UvmOutcome, Variable,
    DEFAULT_PIN_BYTES, DEFAULT_PIN_TOTAL, OSDESC_FLAGS,
};
use vhost_user_nvrm::pool_state::{check_pool_range, PoolState, Stage};

const REGION_BASE: u64 = 0x1000_0000;
const REGION_LEN: u64 = 8 << 20;
const PAGE: u64 = 4096;

fn guest_mem_at(base: u64, len: u64) -> Vec<Region> {
    vec![Region { base, len, file_start: Some(0) }]
}

fn guest_mem() -> Vec<Region> {
    guest_mem_at(REGION_BASE, REGION_LEN)
}

fn run(gpa: u64, len: u64) -> GpaRun {
    GpaRun { gpa: GuestAddr::new(gpa), len: GuestLen::new(len) }
}

fn glen(v: u64) -> GuestLen {
    GuestLen::new(v)
}

fn build(mem: &[Region], runs: &[GpaRun], total: u64) -> Result<Vec<(u64, u64, u64)>, PoolError> {
    Arena::build(mem, runs, glen(total), PAGE, DEFAULT_PIN_BYTES)
        .map(|ps| ps.iter().map(|p| (p.off, p.len, p.file_off)).collect())
}

#[test]
fn contiguous_and_fragmented_runs_build() {
    let mem = guest_mem();
    let total = 3 * 0x1000;
    for runs in [
        vec![run(REGION_BASE, total)],
        vec![run(REGION_BASE + 0x5000, 0x1000), run(REGION_BASE + 0x2000, 0x2000)],
        vec![
            run(REGION_BASE + 0x7000, 0x1000),
            run(REGION_BASE, 0x1000),
            run(REGION_BASE + 0x4000, 0x1000),
        ],
    ] {
        let pieces = build(&mem, &runs, total).expect("valid runs must carry");
        assert_eq!(pieces.iter().map(|p| p.1).sum::<u64>(), total);
    }
}

/// Aliases follow run order, which may differ from the order of the pages.
#[test]
fn arena_aliases_the_named_guest_pages() {
    let runs = [run(REGION_BASE + 0x3000, 0x1000), run(REGION_BASE + 0x1000, 0x1000)];
    assert_eq!(
        build(&guest_mem(), &runs, 0x2000).unwrap(),
        vec![(0, 0x1000, 0x3000), (0x1000, 0x1000, 0x1000)]
    );
}

#[test]
fn rejects_length_zero_and_over_the_pin_limit() {
    assert!(build(&guest_mem(), &[], 0).is_err(), "length 0");

    let mem = guest_mem_at(REGION_BASE, 512 << 20);
    let huge = (256 << 20) + 0x1000;
    let runs = [run(REGION_BASE, huge)];
    assert_eq!(
        build(&mem, &runs, huge),
        Err(PoolError::OverLimit { total: huge, limit: 256 << 20 }),
        "over the pin limit"
    );
    let ok_len = 256 << 20;
    let runs = [run(REGION_BASE, ok_len)];
    assert!(build(&mem, &runs, ok_len).is_ok(), "exactly at the limit must carry");
}

#[test]
fn rejects_sum_mismatch_and_runs_outside_the_region() {
    let mem = guest_mem();
    let runs = [run(REGION_BASE, 0x1000)];
    assert_eq!(
        build(&mem, &runs, 0x2000),
        Err(PoolError::SumDiffers { sum: 0x1000, total: 0x2000 }),
        "sum != total"
    );

    let runs = [run(REGION_BASE + REGION_LEN - 0x1000, 0x2000)];
    assert_eq!(
        build(&mem, &runs, 0x2000),
        Err(PoolError::PastRegion { gpa: REGION_BASE + REGION_LEN - 0x1000, len: 0x2000 }),
        "run past the region end"
    );

    let runs = [run(REGION_BASE + (64 << 20), 0x1000)];
    assert_eq!(
        build(&mem, &runs, 0x1000),
        Err(PoolError::NoRegion { gpa: REGION_BASE + (64 << 20) }),
        "GPA in no region"
    );
}

/// A wrapped run sum must not let a piece leave the arena.
#[test]
fn rejects_wrapping_sum_without_leaking_address_space() {
    const TOTAL: u64 = 0x1000;
    const BIG: u64 = 2 << 20;
    let len2 = TOTAL.wrapping_sub(BIG);
    let gpa2 = REGION_BASE + BIG;
    assert_eq!(BIG.wrapping_add(len2), TOTAL, "setup: sum wraps onto total");
    assert!(
        gpa2.wrapping_add(len2) < REGION_BASE + REGION_LEN,
        "setup: the region check wraps too"
    );

    let runs = [run(REGION_BASE, BIG), run(gpa2, len2)];
    assert_eq!(
        build(&guest_mem(), &runs, TOTAL),
        Err(PoolError::SumOverflows),
        "wrapping sum must be caught"
    );
}

#[test]
fn rejects_wrapping_region_check() {
    let len = u64::MAX - REGION_BASE + 1;
    assert_eq!(REGION_BASE.wrapping_add(len), 0);
    let runs = [run(REGION_BASE, len)];
    assert!(build(&guest_mem(), &runs, len).is_err());
    assert_eq!(
        Arena::build(&guest_mem(), &runs, glen(len), PAGE, u64::MAX),
        Err(PoolError::RunOverflows { gpa: REGION_BASE, len })
    );
}

#[test]
fn total_zero_is_rejected() {
    assert_eq!(build(&guest_mem(), &[run(REGION_BASE, 0)], 0), Err(PoolError::Unaligned));
    assert_eq!(
        build(&guest_mem(), &[], 0),
        Err(PoolError::OverLimit { total: 0, limit: DEFAULT_PIN_BYTES })
    );
}

#[test]
fn pages_need_a_file_and_a_place_in_it() {
    let runs = [run(0x1000, 0x1000)];
    let bare = [Region { base: 0, len: 0x4000, file_start: None }];
    assert_eq!(build(&bare, &runs, 0x1000), Err(PoolError::NoFile));
    let far = [Region { base: 0, len: 0x4000, file_start: Some(i64::MAX as u64 - 0xfff) }];
    assert_eq!(build(&far, &runs, 0x1000), Err(PoolError::FileOffset));
    let farther = [Region { base: 0, len: 0x4000, file_start: Some(u64::MAX) }];
    assert_eq!(build(&farther, &runs, 0x1000), Err(PoolError::FileOffset));
    let endless = [Region { base: 0x1000, len: u64::MAX, file_start: Some(0) }];
    assert_eq!(build(&endless, &runs, 0x1000), Err(PoolError::RegionOverflows));
    let two = [
        Region { base: 0, len: 0x1000, file_start: Some(0) },
        Region { base: 0x1000, len: 0x1000, file_start: Some(0x8000) },
    ];
    assert_eq!(build(&two, &runs, 0x1000), Ok(vec![(0, 0x1000, 0x8000)]));
    assert_eq!(
        Arena::build(&two, &runs, glen(0x1000), PAGE, PAGE).unwrap()[0].region,
        1
    );
}

#[derive(Default)]
struct FakeDriver {
    calls: Vec<&'static str>,
    failures: Vec<&'static str>,
}

impl FakeDriver {
    fn call(&mut self, name: &'static str) -> bool {
        self.calls.push(name);
        match self.failures.iter().position(|failure| *failure == name) {
            Some(index) => {
                self.failures.remove(index);
                false
            }
            None => true,
        }
    }

    fn release(&mut self, chore: Chore) -> bool {
        match chore {
            Chore::FreeRange { .. } => self.call("free_range"),
            Chore::FreeObject { handle, .. } => {
                assert_eq!(handle, 7);
                self.call("free_object")
            }
            Chore::Drop { .. } | Chore::Finished => unreachable!(),
        }
    }
}

/// Releases what the selection takes up; the answer is whether every release succeeded.
fn sweep(s: &mut PoolState, b: &mut PinBudget, d: &mut FakeDriver, select: Select) -> bool {
    let mut w = Sweep::new(select);
    loop {
        match s.sweep(b, &mut w) {
            Chore::Finished => return !w.failed,
            Chore::Drop { .. } => {}
            chore => {
                let ok = d.release(chore);
                s.swept(&mut w, ok);
            }
        }
    }
}

fn retry_quarantine(b: &mut PinBudget, d: &mut FakeDriver) {
    let mut w = Sweep::new(Select::All);
    loop {
        match b.retry_cleanup(&mut w) {
            Chore::Finished => return,
            Chore::Drop { .. } => {}
            chore => {
                let ok = d.release(chore);
                b.retried(&mut w, ok);
            }
        }
    }
}

fn close_session(mut s: PoolState, b: &mut PinBudget, d: &mut FakeDriver) {
    sweep(&mut s, b, d, Select::All);
    s.close(b);
}

fn register_runs(
    s: &mut PoolState,
    b: &mut PinBudget,
    d: &mut FakeDriver,
    token: u64,
    va: u64,
    len: u64,
    runs: &[GpaRun],
) -> Result<(), PoolError> {
    let (addr, len) = (GuestAddr::new(va), glen(len));
    check_pool_range(addr, len)?;
    retry_quarantine(b, d);
    sweep(s, b, d, Select::Inactive);
    let (pieces, charge) =
        s.back_pool_for(b, token, addr, len, &guest_mem(), runs, PAGE, DEFAULT_PIN_BYTES)?;
    let base = 0x7000_0000 + pieces[0].file_off;
    if s.driver().is_none() {
        s.open(b, 42);
    }
    s.adopt(token, addr, len, base, 9, 42, charge);
    let mut stage = Stage::Allocate;
    loop {
        let name = match stage {
            Stage::Allocate => "allocate",
            Stage::Grant => "grant",
            Stage::CreateRange => "create",
            Stage::MapPages => "map",
            Stage::Active => return Ok(()),
            Stage::Failed => {
                sweep(s, b, d, Select::At { token, addr: va });
                return Err(PoolError::Empty);
            }
        };
        let done = if d.call(name) { Some(7) } else { None };
        stage = s.advance(stage, done);
    }
}

fn register(
    s: &mut PoolState,
    b: &mut PinBudget,
    d: &mut FakeDriver,
    token: u64,
    va: u64,
    gpa: u64,
) -> Result<(), PoolError> {
    register_runs(s, b, d, token, va, 0x1000, &[run(gpa, 0x1000)])
}

fn fake_pool(limit: u64) -> (PoolState, PinBudget, FakeDriver) {
    (PoolState::new(), PinBudget::new(limit).unwrap(), FakeDriver::default())
}

#[test]
fn setup_failure_releases_only_resources_it_acquired() {
    for (failed, expected) in [
        ("allocate", vec!["allocate"]),
        ("grant", vec!["allocate", "grant", "free_object"]),
        ("create", vec!["allocate", "grant", "create", "free_object"]),
        ("map", vec!["allocate", "grant", "create", "map", "free_range", "free_object"]),
    ] {
        let (mut state, mut budget, mut driver) = fake_pool(0x1000);
        driver.failures = vec![failed];
        assert!(register(&mut state, &mut budget, &mut driver, 1, 0x2000, REGION_BASE).is_err());
        assert_eq!(driver.calls, expected, "{failed}");
        assert_eq!(budget.used_bytes(), 0, "{failed}");
        assert!(sweep(&mut state, &mut budget, &mut driver, Select::All), "{failed}");
        assert_eq!(driver.calls, expected, "{failed}: nothing is left");
    }
}

#[test]
fn failed_uvm_rollback_keeps_the_arena_fd_and_charge_until_retry() {
    let (mut state, mut budget, mut driver) = fake_pool(0x1000);
    driver.failures = vec!["map", "free_range"];
    assert!(register(&mut state, &mut budget, &mut driver, 1, 0x2000, REGION_BASE).is_err());
    assert_eq!(budget.used_bytes(), 0x1000);
    assert!(state.write_guest_u32_for(1, GuestAddr::new(0x2000)).is_none());
    assert!(!driver.calls.contains(&"free_object"));
    sweep(&mut state, &mut budget, &mut driver, Select::Inactive);
    assert_eq!(budget.used_bytes(), 0);
    assert_eq!(&driver.calls[5..], &["free_range", "free_object"]);
}

#[test]
fn failed_rm_free_does_not_repeat_successful_uvm_free() {
    let (mut state, mut budget, mut driver) = fake_pool(0x1000);
    register(&mut state, &mut budget, &mut driver, 1, 0x2000, REGION_BASE).unwrap();
    driver.failures = vec!["free_object"];
    assert!(!sweep(&mut state, &mut budget, &mut driver, Select::Of { token: 1 }));
    assert_eq!(budget.used_bytes(), 0x1000);
    assert!(sweep(&mut state, &mut budget, &mut driver, Select::Of { token: 1 }));
    assert_eq!(budget.used_bytes(), 0);
    assert_eq!(&driver.calls[4..], &["free_range", "free_object", "free_object"]);
}

#[test]
fn session_cleanup_failure_moves_to_the_shared_retryable_quarantine() {
    let (mut state, mut budget, mut driver) = fake_pool(0x1000);
    register(&mut state, &mut budget, &mut driver, 1, 0x2000, REGION_BASE).unwrap();
    driver.failures = vec!["free_range", "free_range"];
    close_session(state, &mut budget, &mut driver);
    assert_eq!(budget.used_bytes(), 0x1000);
    assert_eq!(budget.quarantined_bytes(), 0x1000);
    retry_quarantine(&mut budget, &mut driver);
    assert_eq!(budget.quarantined_bytes(), 0x1000);
    assert!(budget.reserve(0x1000).is_err());
    retry_quarantine(&mut budget, &mut driver);
    assert_eq!(budget.used_bytes(), 0);
    assert_eq!(budget.quarantined_bytes(), 0);
    assert_eq!(
        &driver.calls[4..],
        &["free_range", "free_range", "free_range", "free_object"]
    );
}

#[test]
fn private_client_guard_survives_session_close_and_failed_cleanup() {
    let (mut state, mut budget, mut driver) = fake_pool(0x1000);
    let observer = PoolState::new();
    register(&mut state, &mut budget, &mut driver, 1, 0x2000, REGION_BASE).unwrap();
    driver.failures = vec!["free_range", "free_range"];
    assert!(observer.is_private_client(&budget, 42));
    assert!(!observer.is_private_client(&budget, 43));
    assert_eq!(budget.private_clients(), vec![42]);
    close_session(state, &mut budget, &mut driver);
    assert!(observer.is_private_client(&budget, 42));
    retry_quarantine(&mut budget, &mut driver);
    assert!(observer.is_private_client(&budget, 42));
    retry_quarantine(&mut budget, &mut driver);
    assert!(!observer.is_private_client(&budget, 42));
    assert!(budget.private_clients().is_empty());
    assert_eq!(budget.used_bytes(), 0);
}

#[test]
fn registration_charge_rounds_to_host_pages_without_overflow() {
    let page = page_size(4096).unwrap();
    for (bytes, expected) in [(1, page), (page - 1, page), (page, page), (page + 1, page * 2)] {
        assert_eq!(registration_bytes(bytes, page).unwrap(), expected);
    }
    assert_eq!(registration_bytes(0, page), Err(PoolError::Empty));
    assert_eq!(registration_bytes(u64::MAX, page), Err(PoolError::Rounding));
    let largest = u64::MAX - u64::MAX % page;
    assert_eq!(registration_bytes(largest, page).unwrap(), largest);
    assert_eq!(page_size(0), Err(PoolError::PageSize));
    assert_eq!(page_size(-1), Err(PoolError::PageSize));
}

#[test]
fn overlapping_pools_are_rejected_before_driver_calls() {
    let (mut state, mut budget, mut driver) = fake_pool(0x3000);
    register_runs(
        &mut state,
        &mut budget,
        &mut driver,
        1,
        0x2000,
        0x2000,
        &[run(REGION_BASE, 0x2000)],
    )
    .unwrap();
    let calls = driver.calls.clone();
    for va in [0x2000, 0x3000] {
        assert_eq!(
            register(&mut state, &mut budget, &mut driver, 1, va, REGION_BASE),
            Err(PoolError::PoolOverlaps)
        );
        assert_eq!(driver.calls, calls);
        assert_eq!(budget.used_bytes(), 0x2000);
    }
    assert!(state.write_guest_u32_for(1, GuestAddr::new(0x2000)).is_some());
}

#[test]
fn equal_vas_on_distinct_uvm_tokens_keep_independent_owners() {
    let (mut state, mut budget, mut driver) = fake_pool(0x2000);
    register(&mut state, &mut budget, &mut driver, 1, 0x2000, REGION_BASE).unwrap();
    register(&mut state, &mut budget, &mut driver, 2, 0x2000, REGION_BASE + 0x1000).unwrap();
    let va = GuestAddr::new(0x2000);
    assert_eq!(state.write_guest_u32_for(1, va), Some(0x7000_0000));
    assert_eq!(state.write_guest_u32_for(2, va), Some(0x7000_1000));
    assert_eq!(state.write_guest_u32_for(3, va), None);
    state.release_uvm_range(1, va);
    assert!(sweep(&mut state, &mut budget, &mut driver, Select::At { token: 1, addr: 0x2000 }));
    assert_eq!(budget.used_bytes(), 0x1000);
    assert_eq!(&driver.calls[8..], &["free_object"]);
    assert_eq!(state.write_guest_u32_for(1, va), None);
    assert_eq!(state.write_guest_u32_for(2, va), Some(0x7000_1000));
}

#[test]
fn forwarded_source_free_retains_its_shared_budget_reservation() {
    let mut budget = PinBudget::new(0x1000).unwrap();
    let mut first = PoolState::new();
    let second = PoolState::new();
    let runs = [run(REGION_BASE, 0x1000)];
    let (_, charge) = first
        .arena_for_osdesc(&mut budget, &guest_mem(), &runs, glen(0x1000), PAGE, DEFAULT_PIN_BYTES)
        .unwrap();
    let arena = Arena { base: 0x7000_0000, len: 0x1000, charge };
    assert_eq!(arena.base(), 0x7000_0000);
    assert!(!first.keep_osdesc_arena(&mut budget, 1, 10, arena));
    assert!(first.drop_osdesc_arena(&mut budget, 1, 10), "the first one retained");
    first.close(&mut budget);
    assert_eq!(budget.used_bytes(), 0x1000);
    assert_eq!(budget.retained_bytes(), 0x1000);
    assert_eq!(
        second.arena_for_osdesc(
            &mut budget,
            &guest_mem(),
            &runs,
            glen(0x1000),
            PAGE,
            DEFAULT_PIN_BYTES
        ),
        Err(PoolError::Exceeded {
            used: 0x1000,
            limit: 0x1000,
            retained: 0x1000,
            requested: 0x1000
        })
    );
}

#[test]
fn arena_build_failure_refunds_the_shared_reservation() {
    let mut budget = PinBudget::new(0x1000).unwrap();
    let state = PoolState::default();
    for (gpa, len) in [(REGION_BASE + 1, 0x1000), (REGION_BASE, 1), (REGION_BASE, 0)] {
        assert!(state
            .arena_for_osdesc(
                &mut budget,
                &guest_mem(),
                &[run(gpa, len)],
                glen(len),
                PAGE,
                DEFAULT_PIN_BYTES
            )
            .is_err());
        assert_eq!(budget.used_bytes(), 0);
    }
}

#[test]
fn shared_budget_reservations_are_atomic_and_checked() {
    let mut budget = PinBudget::new(0x1000).unwrap();
    let granted = (0..8).filter(|_| budget.reserve(0x1000).is_ok()).count();
    assert_eq!(granted, 1);
    budget.refund(0x1000);
    assert_eq!(budget.used_bytes(), 0);
    let mut largest = PinBudget::new(u64::MAX).unwrap();
    largest.reserve(u64::MAX).unwrap();
    assert!(largest.reserve(1).is_err());
    assert_eq!(largest.reserve(0), Err(PoolError::Empty));
    assert_eq!(largest.used_bytes(), u64::MAX);
}

#[test]
fn uvm_free_uses_the_selected_driver_layout() {
    let numbers = |free_len, free_length, free_status| UvmNumbers {
        register_gpu_vaspace: 25,
        register_channel: 27,
        unregister_channel: 28,
        map_external_allocation: 33,
        register_gpu: 37,
        free: 34,
        unregister_channel_client: 16,
        free_len,
        free_status,
        free_base: 0,
        free_length,
    };
    let check = |n: &UvmNumbers| {
        let bytes = free_params(n, GuestAddr::new(0x1000), glen(0x2000));
        assert_eq!(bytes.len(), n.free_len);
        assert_eq!(&bytes[n.free_base..][..8], &0x1000u64.to_le_bytes());
        assert_eq!(&bytes[n.free_status..][..4], &[0; 4]);
        if n.free_length <= bytes.len() && n.free_length + 8 <= bytes.len() {
            assert_eq!(&bytes[n.free_length..][..8], &0x2000u64.to_le_bytes());
        }
    };
    check(&numbers(24, 8, 16));
    check(&numbers(16, 1000, 8));
}

/// A pool in use at `addr`, over the pages from `gpa` on.
fn pool_state_with(addr: u64, gpa: u64, len: u64) -> PoolState {
    let (mut state, mut budget, mut driver) = fake_pool(1 << 20);
    register_runs(&mut state, &mut budget, &mut driver, 1, addr, len, &[run(gpa, len)]).unwrap();
    state
}

#[test]
fn write_guest_u32_hits_the_pool_and_stops_at_its_edges() {
    let (addr, len) = (0x2000_0000u64, 0x2000u64);
    let ps = pool_state_with(addr, REGION_BASE, len);
    let at = |va: u64| ps.write_guest_u32_for(1, GuestAddr::new(va));

    assert_eq!(at(addr), Some(0x7000_0000), "start of the pool");
    assert_eq!(at(addr + len - 4), Some(0x7000_0000 + len - 4), "last complete word");
    assert_eq!(at(addr - 4), None, "before the pool");
    assert_eq!(at(addr + len - 3), None, "extends past the end");
    assert_eq!(at(addr + len), None, "behind the pool");
}

#[test]
fn write_guest_u32_rejects_unaligned_offsets() {
    let addr = 0x2000_0000;
    let ps = pool_state_with(addr, REGION_BASE, 0x2000);
    for offset in [1, 2, 3, 5, 0x1ffb] {
        assert!(ps.write_guest_u32_for(1, GuestAddr::new(addr + offset)).is_none());
    }
}

#[test]
fn write_guest_u32_rejects_wrapping_addresses() {
    let ps = pool_state_with(0x2000_0000, REGION_BASE, 0x2000);
    for va in [u64::MAX, u64::MAX - 3, u64::MAX - 4] {
        assert!(
            ps.write_guest_u32_for(1, GuestAddr::new(va)).is_none(),
            "va {va:#x} accepted"
        );
    }
}

#[test]
fn osdesc_arenas_are_scoped_to_the_rm_client() {
    let mut budget = PinBudget::new(0x10_0000).unwrap();
    let mut ps = PoolState::default();
    let mut keep = |ps: &mut PoolState, budget: &mut PinBudget, root, handle| {
        let runs = [run(REGION_BASE, 0x1000)];
        let (_, charge) = ps
            .arena_for_osdesc(budget, &guest_mem(), &runs, glen(0x1000), PAGE, DEFAULT_PIN_BYTES)
            .unwrap();
        ps.keep_osdesc_arena(
            budget,
            root,
            handle,
            Arena { base: 0x7000_0000, len: 0x1000, charge },
        )
    };
    keep(&mut ps, &mut budget, 1, 10);
    keep(&mut ps, &mut budget, 2, 10);
    keep(&mut ps, &mut budget, 2, 11);
    assert_eq!((budget.used_bytes(), budget.retained_bytes()), (0x3000, 0));

    ps.drop_osdesc_arena(&mut budget, 1, 10);
    assert_eq!(budget.retained_bytes(), 0x1000, "one of the first client");
    ps.drop_osdesc_arena(&mut budget, 1, 10);
    assert_eq!(budget.retained_bytes(), 0x1000, "and only once");

    keep(&mut ps, &mut budget, 1, 10);
    ps.drop_osdesc_client(&mut budget, 2);
    assert_eq!(budget.retained_bytes(), 0x3000, "both of the second client");
    ps.drop_osdesc_client(&mut budget, 2);
    assert_eq!(budget.retained_bytes(), 0x3000);
    ps.drop_osdesc_arena(&mut budget, 1, 10);
    assert_eq!(budget.retained_bytes(), 0x4000, "the one of the first client was left");
}

#[test]
fn a_replaced_arena_is_retained() {
    let mut budget = PinBudget::new(0x2000).unwrap();
    let mut ps = PoolState::new();
    budget.reserve(0x2000).unwrap();
    let arena = Arena { base: 0x7000_0000, len: 0x1000, charge: 0x1000 };
    assert!(!ps.keep_osdesc_arena(&mut budget, 1, 10, arena));
    assert!(ps.keep_osdesc_arena(&mut budget, 1, 10, arena));
    assert_eq!((budget.used_bytes(), budget.retained_bytes()), (0x2000, 0x1000));
}

#[test]
fn pin_limit_rejects_values_that_do_not_fit_in_bytes() {
    assert_eq!(parse_pin_bytes(" 256 "), Some(256 << 20));
    assert_eq!(
        parse_pin_bytes(&(u64::MAX >> 20).to_string()),
        Some(u64::MAX & !((1 << 20) - 1))
    );
    for raw in ["0", "-1", "abc", "17592186044416", "18446744073709551615"] {
        assert_eq!(parse_pin_bytes(raw), None, "{raw}");
    }
}

#[test]
fn limits_come_from_settings_or_defaults() {
    assert_eq!(max_pin_bytes(None), (256 << 20, false));
    assert_eq!(max_pin_bytes(Some("8")), (8 << 20, false));
    assert_eq!(max_pin_bytes(Some("eight")), (256 << 20, true));
    assert_eq!(DEFAULT_PIN_TOTAL, 1024 << 20);
    assert!(PinBudget::from_env(Variable::Absent).is_ok());
    assert!(PinBudget::from_env(Variable::Text("1")).is_ok());
    for bad in [Variable::Text("0"), Variable::Text(""), Variable::NotUnicode] {
        assert_eq!(PinBudget::from_env(bad).err(), Some(PoolError::BadSetting));
    }
    assert_eq!(PinBudget::new(0).err(), Some(PoolError::NoBudget));
}

#[test]
fn pools_are_whole_pages_within_the_address_space() {
    let at = |a, l| check_pool_range(GuestAddr::new(a), glen(l));
    assert_eq!(at(0x1000, 0x1000), Ok(()));
    assert_eq!(at(0x1000, 0), Err(PoolError::PoolPages));
    assert_eq!(at(0x1001, 0x1000), Err(PoolError::PoolPages));
    assert_eq!(at(0x1000, 0x1001), Err(PoolError::PoolPages));
    assert_eq!(at(u64::MAX - 0xfff, 0x1000), Err(PoolError::PoolOverflows));
}

#[test]
fn decode_reads_little_endian_and_checks_length() {
    let mut aux = Vec::new();
    aux.extend_from_slice(&0x1122_3344_5566_7788u64.to_le_bytes());
    aux.extend_from_slice(&0x1000u64.to_le_bytes());
    let r = GpaRun::decode(&aux, 1).unwrap();
    assert_eq!((r[0].gpa.get(), r[0].len.get()), (0x1122_3344_5566_7788, 0x1000));

    assert!(GpaRun::decode(&aux, 2).is_none(), "too short for 2 runs");
    assert!(GpaRun::decode(&aux[..15], 1).is_none(), "one byte too short");
    assert_eq!(GpaRun::decode(&[], 0).unwrap().len(), 0);
    aux.push(0xff);
    assert_eq!(GpaRun::decode(&aux, 1).unwrap().len(), 1);
}

/// A count that was made up must not make the size computation overflow.
#[test]
fn decode_survives_an_absurd_count() {
    let aux = [0u8; 64];
    for count in [usize::MAX, usize::MAX / 16, (u32::MAX as usize) + 1, 1 << 60] {
        assert!(GpaRun::decode(&aux, count).is_none(), "count {count} accepted");
    }
}

#[test]
fn gpa_run_wire_is_two_little_endian_u64() {
    assert_eq!(GpaRun::WIRE, 16);
    assert_eq!(GpaRun::WIRE, 2 * std::mem::size_of::<u64>());
    let mut aux = Vec::new();
    aux.extend_from_slice(&1u64.to_le_bytes());
    aux.extend_from_slice(&2u64.to_le_bytes());
    aux.extend_from_slice(&3u64.to_le_bytes());
    aux.extend_from_slice(&4u64.to_le_bytes());
    assert_eq!(aux.len(), 2 * GpaRun::WIRE);
    let r = GpaRun::decode(&aux, 2).unwrap();
    assert_eq!((r[0].gpa.get(), r[0].len.get()), (1, 2));
    assert_eq!((r[1].gpa.get(), r[1].len.get()), (3, 4));
}

#[test]
fn osdesc_flags_is_the_drf_composition_rm_demands() {
    assert_eq!(OSDESC_FLAGS, (1 << 4) | (1 << 12) | (1 << 30));
    assert_eq!(OSDESC_FLAGS >> 4 & 0xf, 1, "not contiguous");
    assert_eq!(OSDESC_FLAGS >> 8 & 0xf, 0, "system memory");
    assert_eq!(OSDESC_FLAGS >> 12 & 0xf, 1, "cached");
    assert_eq!(OSDESC_FLAGS >> 30 & 0x3, 1, "not mapped");
}

#[test]
fn handles_count_up_and_end() {
    let mut b = Backing::new(10).unwrap();
    assert_eq!((b.handle(), b.handle()), (Some(11), Some(12)));
    assert!(Backing::new(u32::MAX).is_none());
    let mut last = Backing::new(u32::MAX - 2).unwrap();
    assert_eq!(last.handle(), Some(u32::MAX - 1));
    assert_eq!(last.handle(), None);
    assert_eq!(last.handle(), None);
}

#[test]
fn a_uvm_request_is_judged_by_both_its_answers() {
    let mut params = [0u8; 8];
    assert_eq!(uvm_outcome(0, &params, 4), UvmOutcome::Done);
    assert_eq!(uvm_outcome(-1, &params, 4), UvmOutcome::Refused);
    params[4] = 0x51;
    assert_eq!(uvm_outcome(0, &params, 4), UvmOutcome::Status(0x51));
}
