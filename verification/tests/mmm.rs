use std::collections::BTreeSet;
use std::sync::Mutex;

use infer_kernels::datum::DatumType;
use infer_kernels::mmm::{
    add_mat_mul_panel_pair_bytes, c_from_data_and_strides, c_view, chunk_grid,
    chunked_dispatch_rayon, mm_chunk_l2_budget, run_with_scratch_space,
    run_with_scratch_space_col_outer, run_with_scratch_space_vec, same_kernel,
    set_mm_chunk_l2_budget, AddMatMul, Executor, FusedSpec, ImplementationQuality, L2Budget,
    MatMatMul, OutputStoreSpec, WeightType, DEFAULT_L2_BUDGET,
};

/// A kernel that notes the tiles it is asked for, and fails on one of them.
struct Noting {
    name: &'static str,
    mr: usize,
    nr: usize,
    fails_at: Option<(usize, usize)>,
    tiles: Mutex<Vec<(usize, usize)>>,
}

impl Noting {
    fn new(mr: usize, nr: usize) -> Noting {
        Noting { name: "noting", mr, nr, fails_at: None, tiles: Mutex::new(vec![]) }
    }

    fn tiles(&self) -> Vec<(usize, usize)> {
        self.tiles.lock().unwrap().clone()
    }
}

impl MatMatMul for Noting {
    type Error = String;

    fn name(&self) -> &str {
        self.name
    }
    fn mr(&self) -> usize {
        self.mr
    }
    fn nr(&self) -> usize {
        self.nr
    }
    fn quality(&self) -> ImplementationQuality {
        ImplementationQuality::Generic
    }
    fn dynamic_boost(&self) -> isize {
        0
    }
    fn internal_type(&self) -> DatumType {
        DatumType::F32
    }
    fn can_fuse(&self, _spec: &FusedSpec) -> bool {
        true
    }
    fn stores(&self) -> Vec<DatumType> {
        vec![DatumType::F32]
    }
    fn run_one_tile(&self, _specs: &[FusedSpec], ia: usize, ib: usize) -> Result<(), String> {
        self.tiles.lock().unwrap().push((ia, ib));
        if self.fails_at == Some((ia, ib)) {
            Err(format!("tile {ia} {ib}"))
        } else {
            Ok(())
        }
    }
}

fn prefers(col_outer: Option<bool>) -> FusedSpec {
    FusedSpec { prefer_col_outer: col_outer, add_mat_mul: None }
}

fn product(k: usize, a: WeightType, b: WeightType) -> FusedSpec {
    FusedSpec { prefer_col_outer: None, add_mat_mul: Some(AddMatMul { k, a, b }) }
}

/// Every pair of panels once.
fn assert_all_once(tiles: &[(usize, usize)], m: usize, n: usize) {
    let set: BTreeSet<(usize, usize)> = tiles.iter().copied().collect();
    assert_eq!(tiles.len(), m * n);
    assert_eq!(set.len(), m * n);
    assert!(set.iter().all(|(a, b)| *a < m && *b < n));
}

#[test]
fn qualities_are_ranked() {
    let all = ImplementationQuality::best_to_worst();
    assert_eq!(all[0], ImplementationQuality::ManuallyOptimized);
    assert_eq!(all[4], ImplementationQuality::Dreadful);
    for (place, q) in all.iter().enumerate() {
        assert_eq!(q.cost(), place);
        assert_eq!(usize::from(*q), place);
    }
    assert!(ImplementationQuality::ManuallyOptimized < ImplementationQuality::Generic);
    assert!(ImplementationQuality::Dreadful > ImplementationQuality::RustOptimized);
}

#[test]
fn kernels_are_known_by_their_names() {
    let (a, b) = (Noting::new(4, 4), Noting::new(8, 8));
    let mut c = Noting::new(4, 4);
    c.name = "other";
    assert!(same_kernel(&a, &b));
    assert!(!same_kernel(&a, &c));
}

#[test]
fn tiles_are_stored_by_axes_or_strides() {
    let ker = Noting::new(4, 8);
    assert_eq!(
        c_view(&ker, Some(0), None),
        OutputStoreSpec::View { m_axis: Some(0), n_axis: None, mr: 4, nr: 8 }
    );
    assert_eq!(
        c_from_data_and_strides(&ker, 4, -10, 1),
        OutputStoreSpec::Strides { row_byte_stride: -40, col_byte_stride: 4, mr: 4, nr: 8 }
    );
}

#[test]
fn a_pair_of_panels_is_measured_by_the_first_product() {
    let ker = Noting::new(4, 8);
    let f16 = WeightType::Plain(DatumType::F16);
    let steps = [prefers(None), product(100, f16, WeightType::Packed), product(7, f16, f16)];
    assert_eq!(add_mat_mul_panel_pair_bytes(&ker, &steps), 100 * (4 * 2 + 8 * 4));
    assert_eq!(add_mat_mul_panel_pair_bytes(&ker, &[prefers(None)]), 0);
}

#[test]
fn a_budget_is_read_once_from_the_setting() {
    let read = |setting: Option<&str>| mm_chunk_l2_budget(&mut L2Budget { stored: 0 }, setting);
    assert_eq!(DEFAULT_L2_BUDGET, 512 * 1024);
    assert_eq!(read(None), DEFAULT_L2_BUDGET);
    assert_eq!(read(Some("1048576")), 1048576);
    assert_eq!(read(Some("+7")), 7);
    for bad in ["", "+", "0", "-1", " 7", "7 ", "0x10", "7.0", "99999999999999999999999"] {
        assert_eq!(read(Some(bad)), DEFAULT_L2_BUDGET, "{bad:?}");
    }
    let mut budget = L2Budget { stored: 0 };
    assert_eq!(mm_chunk_l2_budget(&mut budget, Some("42")), 42);
    // Later settings are too late.
    assert_eq!(mm_chunk_l2_budget(&mut budget, Some("43")), 42);
    set_mm_chunk_l2_budget(&mut budget, 1000);
    assert_eq!(mm_chunk_l2_budget(&mut budget, Some("43")), 1000);
    set_mm_chunk_l2_budget(&mut budget, 0);
    assert_eq!(mm_chunk_l2_budget(&mut budget, None), 1);
}

#[test]
fn chunks_follow_panels_threads_and_budget() {
    // Sixteen panels to a chunk along either axis.
    assert_eq!(chunk_grid(160, 160, 4, 0, 1), (10, 10, 16, 16));
    // Sixty-four where there is one panel along an axis.
    assert_eq!(chunk_grid(6400, 1, 4, 0, 1), (100, 1, 64, 1));
    // Fewer than four chunks per thread: one per thread along the longer axis.
    assert_eq!(chunk_grid(40, 20, 4, 0, 1), (4, 1, 10, 20));
    assert_eq!(chunk_grid(20, 40, 4, 0, 1), (1, 4, 20, 10));
    assert_eq!(chunk_grid(3, 3, 8, 0, 1), (1, 8, 3, 1));
    // Eight pairs of panels fit the budget; or one, but a chunk takes four.
    assert_eq!(chunk_grid(160, 160, 4, 1000, 8000), (20, 20, 8, 8));
    assert_eq!(chunk_grid(160, 160, 4, 1000, 1000), (40, 40, 4, 4));
    // A large budget makes no chunk larger than usual.
    assert_eq!(chunk_grid(160, 160, 4, 1000, 1000000), (10, 10, 16, 16));
    // The larger the budget, the fewer and larger the chunks.
    let mut last = 0;
    for budget in [0, 4000, 5000, 9999, 16000, 1 << 40] {
        let (_, _, dr_m, _) = chunk_grid(1600, 1600, 1, 1000, budget);
        assert!(last <= dr_m && dr_m <= 16);
        last = dr_m;
    }
    assert_eq!(last, 16);
    // No panels at all.
    assert_eq!(chunk_grid(0, 5, 2, 0, 1), (1, 2, 1, 3));
}

#[test]
fn dispatched_chunks_cover_the_grid_once() {
    let pool = rayon::ThreadPoolBuilder::new().num_threads(3).build().unwrap();
    for pool in [None, Some(&pool)] {
        let seen: Mutex<Vec<(usize, usize)>> = Mutex::new(vec![]);
        let run = |a0: usize, a1: usize, b0: usize, b1: usize| -> Result<(), String> {
            for ia in a0..a1 {
                for ib in b0..b1 {
                    seen.lock().unwrap().push((ia, ib));
                }
            }
            Ok(())
        };
        assert_eq!(chunked_dispatch_rayon(pool, 37, 19, 4, 1000, 6000, &run), Ok(()));
        assert_all_once(&seen.lock().unwrap(), 37, 19);
    }
}

#[test]
fn small_grids_are_one_chunk_and_empty_ones_none() {
    let calls: Mutex<Vec<(usize, usize, usize, usize)>> = Mutex::new(vec![]);
    let run = |a0: usize, a1: usize, b0: usize, b1: usize| -> Result<(), String> {
        calls.lock().unwrap().push((a0, a1, b0, b1));
        Err("no".to_string())
    };
    assert_eq!(chunked_dispatch_rayon(None, 0, 5, 1, 0, 1, &run), Ok(()));
    assert!(calls.lock().unwrap().is_empty());
    assert_eq!(chunked_dispatch_rayon(None, 3, 5, 16, 0, 1, &run), Err("no".to_string()));
    assert_eq!(*calls.lock().unwrap(), vec![(0, 3, 0, 5)]);
    // At the threshold threads take over, and an error comes through.
    assert_eq!(chunked_dispatch_rayon(None, 3, 5, 15, 0, 1, &run), Err("no".to_string()));
}

#[test]
fn every_tile_is_run_once_by_every_executor() {
    let pool = rayon::ThreadPoolBuilder::new().num_threads(2).build().unwrap();
    let single = rayon::ThreadPoolBuilder::new().num_threads(1).build().unwrap();
    let plain = WeightType::Plain(DatumType::F32);
    for executor in [
        Executor::SingleThread,
        Executor::MultiThread(&pool),
        Executor::MultiThread(&single),
        Executor::RayonGlobal,
    ] {
        for col_outer in [None, Some(true), Some(false)] {
            let ker = Noting::new(4, 2);
            let steps = [prefers(col_outer), product(64, plain, plain)];
            // 100 rows are 25 panels, 35 columns 18.
            let r = run_with_scratch_space(&ker, 100, 35, Ok(()), executor, 8, 4096, &steps);
            assert_eq!(r, Ok(()));
            assert_all_once(&ker.tiles(), 25, 18);
        }
    }
}

#[test]
fn one_thread_takes_the_tiles_in_order() {
    let ker = Noting::new(4, 4);
    let one = Executor::SingleThread;
    run_with_scratch_space(&ker, 8, 9, Ok(()), one, 1, 1, &[prefers(Some(true))]).unwrap();
    assert_eq!(ker.tiles(), vec![(0, 0), (1, 0), (0, 1), (1, 1), (0, 2), (1, 2)]);
    let ker = Noting::new(4, 4);
    // The last preference counts.
    let steps = [prefers(Some(true)), prefers(Some(false)), prefers(None)];
    run_with_scratch_space(&ker, 8, 9, Ok(()), one, 1, 1, &steps).unwrap();
    assert_eq!(ker.tiles(), vec![(0, 0), (0, 1), (0, 2), (1, 0), (1, 1), (1, 2)]);
    let ker = Noting::new(4, 4);
    run_with_scratch_space_col_outer(&ker, 4, 8, one, 1, 1, &[]).unwrap();
    assert_eq!(ker.tiles(), vec![(0, 0), (0, 1)]);
    let ker = Noting::new(4, 1);
    run_with_scratch_space_vec(&ker, 9, one, 1, 1, &[]).unwrap();
    assert_eq!(ker.tiles(), vec![(0, 0), (1, 0), (2, 0)]);
}

#[test]
fn the_first_failure_ends_the_work() {
    let mut ker = Noting::new(4, 4);
    ker.fails_at = Some((1, 1));
    let r = run_with_scratch_space(&ker, 12, 12, Ok(()), Executor::SingleThread, 1, 1, &[]);
    assert_eq!(r, Err("tile 1 1".to_string()));
    assert_eq!(ker.tiles(), vec![(0, 0), (0, 1), (0, 2), (1, 0), (1, 1)]);
    let mut ker = Noting::new(4, 4);
    ker.fails_at = Some((5, 7));
    let r = run_with_scratch_space(&ker, 80, 80, Ok(()), Executor::RayonGlobal, 1, 1, &[]);
    assert_eq!(r, Err("tile 5 7".to_string()));
    // Nothing runs where the preparation failed.
    let ker = Noting::new(4, 4);
    let failed = Err("no scratch".to_string());
    let r = run_with_scratch_space(&ker, 8, 8, failed, Executor::SingleThread, 1, 1, &[]);
    assert_eq!(r, Err("no scratch".to_string()));
    assert!(ker.tiles().is_empty());
}
