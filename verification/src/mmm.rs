//! Matrix multiplication driven tile by tile, on one thread or on many.
//!
//! A kernel computes one tile of the product: the rows of one panel of the left
//! matrix against the columns of one panel of the right one. The drivers walk
//! the grid of panels, or have it walked in chunks by a thread pool.

use std::cmp::Ordering;

use vstd::prelude::*;

use crate::datum::DatumType;
use crate::math;
use crate::parallel;

verus! {

/// How good an implementation is.
#[derive(Debug, Clone, Copy, PartialEq, Eq, Structural, Hash)]
pub enum ImplementationQuality {
    /// Individual operations are emulated by conversions.
    Dreadful,
    /// Scalar operations.
    Generic,
    /// Implicit vectorization.
    RustOptimized,
    /// Explicit vectorization.
    TargetOptimized,
    /// Assembly written by hand.
    ManuallyOptimized,
}

impl ImplementationQuality {
    /// All qualities, the best first.
    pub open spec fn ranking() -> Seq<ImplementationQuality> {
        seq![
            ImplementationQuality::ManuallyOptimized,
            ImplementationQuality::TargetOptimized,
            ImplementationQuality::RustOptimized,
            ImplementationQuality::Generic,
            ImplementationQuality::Dreadful,
        ]
    }

    /// The place in the ranking.
    pub open spec fn place(self) -> int {
        match self {
            ImplementationQuality::ManuallyOptimized => 0,
            ImplementationQuality::TargetOptimized => 1,
            ImplementationQuality::RustOptimized => 2,
            ImplementationQuality::Generic => 3,
            ImplementationQuality::Dreadful => 4,
        }
    }

    /// All qualities, the best first.
    pub fn best_to_worst() -> (r: [ImplementationQuality; 5])
        ensures
            r@ == Self::ranking(),
    {
        let r = [
            ImplementationQuality::ManuallyOptimized,
            ImplementationQuality::TargetOptimized,
            ImplementationQuality::RustOptimized,
            ImplementationQuality::Generic,
            ImplementationQuality::Dreadful,
        ];
        assert(r@ =~= Self::ranking());
        r
    }

    /// The place in the ranking.
    pub fn cost(&self) -> (r: usize)
        ensures
            r == self.place(),
            Self::ranking()[r as int] == *self,
    {
        match self {
            ImplementationQuality::ManuallyOptimized => 0,
            ImplementationQuality::TargetOptimized => 1,
            ImplementationQuality::RustOptimized => 2,
            ImplementationQuality::Generic => 3,
            ImplementationQuality::Dreadful => 4,
        }
    }
}

impl PartialOrd for ImplementationQuality {
    fn partial_cmp(&self, other: &Self) -> (r: Option<Ordering>) {
        let (a, b): (usize, usize) = (self.cost(), other.cost());
        if a < b {
            Some(Ordering::Less)
        } else if a == b {
            Some(Ordering::Equal)
        } else {
            Some(Ordering::Greater)
        }
    }
}

impl vstd::std_specs::cmp::PartialOrdSpecImpl for ImplementationQuality {
    open spec fn obeys_partial_cmp_spec() -> bool {
        true
    }

    open spec fn partial_cmp_spec(&self, other: &Self) -> Option<Ordering> {
        if self.place() < other.place() {
            Some(Ordering::Less)
        } else if self.place() == other.place() {
            Some(Ordering::Equal)
        } else {
            Some(Ordering::Greater)
        }
    }
}

impl From<ImplementationQuality> for usize {
    fn from(value: ImplementationQuality) -> (r: usize) {
        value.cost()
    }
}

impl vstd::std_specs::convert::FromSpecImpl<ImplementationQuality> for usize {
    open spec fn obeys_from_spec() -> bool {
        true
    }

    open spec fn from_spec(value: ImplementationQuality) -> usize {
        value.place() as usize
    }
}

/// The weights of one matrix, as a kernel reads them.
#[derive(Debug, Clone, Copy, PartialEq, Eq, Structural)]
pub enum WeightType {
    /// Plain elements.
    Plain(DatumType),
    /// Elements in some other form, which a kernel unpacks to its own type.
    Packed,
}

/// The product that a call computes: the inner dimension, and how the two
/// matrices are held.
#[derive(Debug, Clone, Copy, PartialEq, Eq, Structural)]
pub struct AddMatMul {
    pub k: usize,
    pub a: WeightType,
    pub b: WeightType,
}

/// One step of the work on each tile.
#[derive(Debug, Clone, Copy)]
pub struct FusedSpec {
    /// Which order of the tiles the step prefers: columns outside, or rows.
    pub prefer_col_outer: Option<bool>,
    /// The product, where the step is one.
    pub add_mat_mul: Option<AddMatMul>,
}

/// Where a tile is written.
#[derive(Debug, Clone, Copy, PartialEq, Eq, Structural)]
pub enum OutputStoreSpec {
    View { m_axis: Option<usize>, n_axis: Option<usize>, mr: usize, nr: usize },
    Strides { row_byte_stride: isize, col_byte_stride: isize, mr: usize, nr: usize },
}

/// A matrix multiplication kernel. Beside the properties that the drivers read
/// stand the spec functions that name them.
pub trait MatMatMul: Send + Sync {
    /// What a tile can fail with.
    type Error: Send;

    /// The kernel's name.
    open spec fn name_spec(&self) -> Seq<char> {
        (choose|r: &str| #[trigger] call_ensures(Self::name, (self,), r))@
    }

    /// The kernel's name.
    fn name(&self) -> &str;

    /// The number of rows of a tile.
    open spec fn mr_spec(&self) -> usize {
        choose|r: usize| #[trigger] call_ensures(Self::mr, (self,), r)
    }

    /// The number of rows of a tile.
    fn mr(&self) -> usize;

    /// The number of columns of a tile.
    open spec fn nr_spec(&self) -> usize {
        choose|r: usize| #[trigger] call_ensures(Self::nr, (self,), r)
    }

    /// The number of columns of a tile.
    fn nr(&self) -> usize;

    /// How good the kernel is.
    fn quality(&self) -> ImplementationQuality;

    /// A correction to the quality, known at run time.
    fn dynamic_boost(&self) -> isize;

    /// The type that the kernel accumulates in.
    open spec fn internal_type_spec(&self) -> DatumType {
        choose|r: DatumType| #[trigger] call_ensures(Self::internal_type, (self,), r)
    }

    /// The type that the kernel accumulates in.
    fn internal_type(&self) -> DatumType;

    /// Whether the kernel can do a step on its tiles.
    fn can_fuse(&self, spec: &FusedSpec) -> bool;

    /// The types that the kernel can write.
    fn stores(&self) -> Vec<DatumType>;

    /// Computes the tile of panels `ia` and `ib`.
    fn run_one_tile(&self, non_linear: &[FusedSpec], ia: usize, ib: usize) -> Result<
        (),
        Self::Error,
    >;
}

/// Whether the properties of a kernel do not change.
#[verifier::opaque]
pub open spec fn steady<K: MatMatMul>(ker: &K) -> bool {
    &&& forall|r: &str| #[trigger] call_ensures(K::name, (ker,), r) ==> r@ == ker.name_spec()
    &&& forall|r: usize| #[trigger] call_ensures(K::mr, (ker,), r) ==> r == ker.mr_spec()
    &&& forall|r: usize| #[trigger] call_ensures(K::nr, (ker,), r) ==> r == ker.nr_spec()
    &&& forall|r: DatumType| #[trigger]
        call_ensures(K::internal_type, (ker,), r) ==> r == ker.internal_type_spec()
}

fn rows_of<K: MatMatMul>(ker: &K) -> (r: usize)
    requires
        steady(ker),
    ensures
        r == ker.mr_spec(),
{
    proof {
        reveal(steady);
    }
    ker.mr()
}

fn columns_of<K: MatMatMul>(ker: &K) -> (r: usize)
    requires
        steady(ker),
    ensures
        r == ker.nr_spec(),
{
    proof {
        reveal(steady);
    }
    ker.nr()
}

/// Whether two kernels are one: they are known by their names.
pub fn same_kernel<K: MatMatMul, L: MatMatMul>(a: &K, b: &L) -> (r: bool)
    requires
        steady(a),
        steady(b),
    ensures
        r == (a.name_spec() == b.name_spec()),
{
    proof {
        reveal(steady);
    }
    a.name().to_owned() == b.name().to_owned()
}

/// Tiles are written to a view with the given axes.
pub fn c_view<K: MatMatMul>(ker: &K, m_axis: Option<usize>, n_axis: Option<usize>) -> (r:
    OutputStoreSpec)
    requires
        steady(ker),
    ensures
        r == (OutputStoreSpec::View { m_axis, n_axis, mr: ker.mr_spec(), nr: ker.nr_spec() }),
{
    OutputStoreSpec::View { m_axis, n_axis, mr: rows_of(ker), nr: columns_of(ker) }
}

/// Tiles are written to items of `item_size` bytes, at the given distances.
pub fn c_from_data_and_strides<K: MatMatMul>(
    ker: &K,
    item_size: usize,
    row_stride: isize,
    col_stride: isize,
) -> (r: OutputStoreSpec)
    requires
        steady(ker),
        item_size <= isize::MAX,
        isize::MIN <= row_stride * item_size <= isize::MAX,
        isize::MIN <= col_stride * item_size <= isize::MAX,
    ensures
        r == (OutputStoreSpec::Strides {
            row_byte_stride: (row_stride * item_size) as isize,
            col_byte_stride: (col_stride * item_size) as isize,
            mr: ker.mr_spec(),
            nr: ker.nr_spec(),
        }),
{
    OutputStoreSpec::Strides {
        row_byte_stride: row_stride * item_size as isize,
        col_byte_stride: col_stride * item_size as isize,
        mr: rows_of(ker),
        nr: columns_of(ker),
    }
}

/// The number of bytes of one element of a matrix.
pub open spec fn element_size(w: WeightType, internal: DatumType) -> nat {
    match w {
        WeightType::Plain(dt) => dt.size(),
        WeightType::Packed => internal.size(),
    }
}

/// The first product among some steps.
pub open spec fn first_product(specs: Seq<FusedSpec>) -> Option<AddMatMul>
    decreases specs.len(),
{
    if specs.len() == 0 {
        None
    } else if specs[0].add_mat_mul is Some {
        specs[0].add_mat_mul
    } else {
        first_product(specs.drop_first())
    }
}

/// The bytes of one panel of either matrix of the first product, together.
pub open spec fn pair_bytes(mr: usize, nr: usize, internal: DatumType, specs: Seq<FusedSpec>) -> nat {
    match first_product(specs) {
        Some(p) => (p.k * (mr * element_size(p.a, internal) + nr * element_size(p.b, internal))) as nat,
        None => 0,
    }
}

/// The number of bytes of one element of a matrix.
fn element_size_of(w: &WeightType, internal: &DatumType) -> (r: usize)
    ensures
        r == element_size(*w, *internal),
        r <= 8,
{
    match w {
        WeightType::Plain(dt) => dt.size_of(),
        WeightType::Packed => internal.size_of(),
    }
}

/// The bytes of one panel of either matrix of the first product, together; 0
/// where there is no product.
pub fn add_mat_mul_panel_pair_bytes<K: MatMatMul>(ker: &K, non_linear: &[FusedSpec]) -> (r: usize)
    requires
        steady(ker),
        ker.mr_spec() * 8 + ker.nr_spec() * 8 <= usize::MAX,
        pair_bytes(ker.mr_spec(), ker.nr_spec(), ker.internal_type_spec(), non_linear@)
            <= usize::MAX,
    ensures
        r == pair_bytes(ker.mr_spec(), ker.nr_spec(), ker.internal_type_spec(), non_linear@),
{
    let mut i: usize = 0;
    assert(non_linear@.skip(0) =~= non_linear@);
    while i < non_linear.len()
        invariant
            steady(ker),
            ker.mr_spec() * 8 + ker.nr_spec() * 8 <= usize::MAX,
            pair_bytes(ker.mr_spec(), ker.nr_spec(), ker.internal_type_spec(), non_linear@)
                <= usize::MAX,
            i <= non_linear@.len(),
            first_product(non_linear@.skip(i as int)) == first_product(non_linear@),
        decreases non_linear@.len() - i,
    {
        assert(non_linear@.skip(i as int).drop_first() =~= non_linear@.skip(i + 1));
        assert(non_linear@.skip(i as int)[0] == non_linear@[i as int]);
        if let Some(p) = &non_linear[i].add_mat_mul {
            proof {
                reveal(steady);
            }
            let internal = ker.internal_type();
            let (mr, nr): (usize, usize) = (rows_of(ker), columns_of(ker));
            let (ea, eb): (usize, usize) = (
                element_size_of(&p.a, &internal),
                element_size_of(&p.b, &internal),
            );
            assert(mr * ea <= mr * 8) by (nonlinear_arith)
                requires
                    ea <= 8,
            ;
            assert(nr * eb <= nr * 8) by (nonlinear_arith)
                requires
                    eb <= 8,
            ;
            return p.k * (mr * ea + nr * eb);
        }
        i += 1;
    }
    0
}

/// The budget that applies where none was set.
pub const DEFAULT_L2_BUDGET: usize = 524288;

/// The value of a decimal digit.
pub open spec fn digit_value(c: char) -> Option<nat> {
    if '0' <= c <= '9' {
        Some((c as nat - '0' as nat) as nat)
    } else {
        None
    }
}

/// The number that a text of digits alone stands for.
pub open spec fn digits_value(s: Seq<char>) -> Option<nat>
    decreases s.len(),
{
    if s.len() == 0 {
        Some(0)
    } else {
        match (digits_value(s.drop_last()), digit_value(s.last())) {
            (Some(v), Some(d)) => Some(v * 10 + d),
            _ => None,
        }
    }
}

/// The count that a text stands for: digits, a plus sign before them at most,
/// and no more than fits.
pub open spec fn parsed(s: Seq<char>) -> Option<usize> {
    let digits = if s.len() > 0 && s[0] == '+' {
        s.drop_first()
    } else {
        s
    };
    match digits_value(digits) {
        Some(v) if digits.len() > 0 && v <= usize::MAX => Some(v as usize),
        _ => None,
    }
}

/// Calls `str::parse` for `usize`. It is claimed that it reads digits, after a
/// plus sign at most, and refuses every other text and what does not fit.
#[verifier::external_body]
fn parse_count(s: &str) -> (r: Option<usize>)
    ensures
        r == parsed(s@),
{
    s.parse::<usize>().ok()
}

/// The budget that a setting asks for, where it is a count above 0.
pub open spec fn initial_budget(setting: Option<Seq<char>>) -> usize {
    match setting {
        Some(s) => match parsed(s) {
            Some(v) if v > 0 => v,
            _ => DEFAULT_L2_BUDGET,
        },
        None => DEFAULT_L2_BUDGET,
    }
}

/// How many bytes of panels a chunk may work on, so that they stay in the
/// cache. It is 0 until it is first read or set.
#[derive(Debug, Clone, Copy)]
pub struct L2Budget {
    pub stored: usize,
}

/// What reading a budget gives: what is stored, or the first time what the
/// setting asks for.
pub open spec fn budget_read(stored: usize, setting: Option<Seq<char>>) -> usize {
    if stored != 0 {
        stored
    } else {
        initial_budget(setting)
    }
}

/// What setting a budget stores: 1 at least.
pub open spec fn budget_set(bytes: usize) -> usize {
    if bytes == 0 {
        1
    } else {
        bytes
    }
}

/// What a setting says.
pub open spec fn setting_text(setting: Option<&str>) -> Option<Seq<char>> {
    match setting {
        Some(s) => Some(s@),
        None => None,
    }
}

/// Reads the budget. The first time it is taken from `setting`.
pub fn mm_chunk_l2_budget(budget: &mut L2Budget, setting: Option<&str>) -> (r: usize)
    ensures
        r == budget_read(old(budget).stored, setting_text(setting)),
        final(budget).stored == r,
{
    if budget.stored != 0 {
        return budget.stored;
    }
    let init: usize = match setting {
        Some(s) => match parse_count(s) {
            Some(v) => if v > 0 {
                v
            } else {
                DEFAULT_L2_BUDGET
            },
            None => DEFAULT_L2_BUDGET,
        },
        None => DEFAULT_L2_BUDGET,
    };
    budget.stored = init;
    init
}

/// Sets the budget, to 1 at least.
pub fn set_mm_chunk_l2_budget(budget: &mut L2Budget, bytes: usize)
    ensures
        final(budget).stored == budget_set(bytes),
{
    budget.stored = if bytes == 0 { 1 } else { bytes };
}

/// What is set is what is read from then on, whatever the setting asks for.
pub proof fn law_set_budget_is_read(bytes: usize, setting: Option<Seq<char>>)
    ensures
        budget_read(budget_set(bytes), setting) == if bytes == 0 {
            1
        } else {
            bytes
        },
{
}

/// A budget once read stays, whatever the setting asks for later; and it is
/// never 0.
pub proof fn law_read_budget_stays(
    stored: usize,
    setting: Option<Seq<char>>,
    later: Option<Seq<char>>,
)
    ensures
        budget_read(stored, setting) > 0,
        budget_read(budget_read(stored, setting), later) == budget_read(stored, setting),
{
}

/// How many panels a chunk takes along each axis before threads are considered.
pub open spec fn chunk_size(n_panels_m: nat, n_panels_n: nat, pair: nat, budget: nat) -> nat {
    let base = if n_panels_m == 1 || n_panels_n == 1 {
        64nat
    } else {
        16nat
    };
    if pair == 0 {
        base
    } else if budget / pair < 4 {
        4
    } else if budget / pair > base {
        base
    } else {
        budget / pair
    }
}

/// A grid of chunks: how many along each axis, and how many panels in each.
pub struct Grid {
    pub nchunks_m: nat,
    pub nchunks_n: nat,
    pub dr_m: nat,
    pub dr_n: nat,
}

/// At least 1.
pub open spec fn at_least_one(n: nat) -> nat {
    if n == 0 {
        1
    } else {
        n
    }
}

/// The grid of chunks: chunks of [`chunk_size`], or where these are fewer than
/// four per thread, one per thread along the longer axis.
pub open spec fn grid(n_panels_m: nat, n_panels_n: nat, nth: nat, pair: nat, budget: nat) -> Grid {
    let size = chunk_size(n_panels_m, n_panels_n, pair, budget);
    let (cm, cn) = (math::ceil_div(n_panels_m, size), math::ceil_div(n_panels_n, size));
    let (nchunks_m, nchunks_n) = if cm * cn < 4 * nth {
        if n_panels_m > n_panels_n {
            (nth, 1nat)
        } else {
            (1nat, nth)
        }
    } else {
        (cm, cn)
    };
    Grid {
        nchunks_m,
        nchunks_n,
        dr_m: at_least_one(math::ceil_div(n_panels_m, nchunks_m)),
        dr_n: at_least_one(math::ceil_div(n_panels_n, nchunks_n)),
    }
}

/// A chunk is never larger than the usual, nor smaller than four panels; and
/// unless it is that small, as many pairs of panels as it takes along an axis
/// fit the budget.
pub proof fn law_chunks_fit_the_budget(n_panels_m: nat, n_panels_n: nat, pair: nat, budget: nat)
    ensures
        4 <= chunk_size(n_panels_m, n_panels_n, pair, budget) <= if n_panels_m == 1 || n_panels_n
            == 1 {
            64int
        } else {
            16int
        },
        chunk_size(n_panels_m, n_panels_n, pair, budget) > 4 ==> chunk_size(
            n_panels_m,
            n_panels_n,
            pair,
            budget,
        ) * pair <= budget,
{
    let size = chunk_size(n_panels_m, n_panels_n, pair, budget);
    if pair > 0 && size > 4 {
        vstd::arithmetic::div_mod::lemma_fundamental_div_mod(budget as int, pair as int);
        let q = budget / pair;
        assert(size * pair <= budget) by (nonlinear_arith)
            requires
                size <= q,
                budget == pair * q + budget % pair,
                budget % pair >= 0,
                pair > 0,
        ;
    }
    assert(size * 0 == 0);
}

/// A larger budget makes no chunk smaller; and one that holds as many pairs of
/// panels as a chunk usually takes does not cap it, nor does any budget where
/// there is no product.
pub proof fn law_larger_budgets_shrink_less(
    n_panels_m: nat,
    n_panels_n: nat,
    pair: nat,
    budget: nat,
    larger: nat,
)
    requires
        budget <= larger,
    ensures
        chunk_size(n_panels_m, n_panels_n, pair, budget) <= chunk_size(
            n_panels_m,
            n_panels_n,
            pair,
            larger,
        ),
        pair * chunk_size(n_panels_m, n_panels_n, 0, budget) <= budget ==> chunk_size(
            n_panels_m,
            n_panels_n,
            pair,
            budget,
        ) == chunk_size(n_panels_m, n_panels_n, 0, budget),
        chunk_size(n_panels_m, n_panels_n, 0, budget) == if n_panels_m == 1 || n_panels_n == 1 {
            64int
        } else {
            16int
        },
{
    let base = chunk_size(n_panels_m, n_panels_n, 0, budget);
    if pair > 0 {
        vstd::arithmetic::div_mod::lemma_div_is_ordered(
            budget as int,
            larger as int,
            pair as int,
        );
        if pair * base <= budget {
            vstd::arithmetic::div_mod::lemma_div_is_ordered(
                (pair * base) as int,
                budget as int,
                pair as int,
            );
            vstd::arithmetic::div_mod::lemma_div_multiples_vanish(base as int, pair as int);
        }
    }
}

/// The chunks along one axis reach its end, and the last starts no further
/// behind it than there are chunks.
proof fn lemma_chunks_reach(n: nat, nchunks: nat)
    requires
        nchunks > 0,
        n > 0,
    ensures
        nchunks * at_least_one(math::ceil_div(n, nchunks)) >= n,
        nchunks * at_least_one(math::ceil_div(n, nchunks)) < n + nchunks,
        math::ceil_div(n, nchunks) > 0,
{
    math::lemma_ceil_div(n, nchunks);
    let dr = math::ceil_div(n, nchunks);
    assert(nchunks * dr == dr * nchunks) by (nonlinear_arith);
    assert((dr - 1) * nchunks == dr * nchunks - nchunks) by (nonlinear_arith);
}

/// The grid of chunks for `nth` threads.
pub fn chunk_grid(
    n_panels_m: usize,
    n_panels_n: usize,
    nth: usize,
    panel_pair_bytes: usize,
    budget: usize,
) -> (r: (usize, usize, usize, usize))
    requires
        n_panels_m * n_panels_n <= usize::MAX,
        4 * nth <= usize::MAX,
        nth > 0 || n_panels_m * n_panels_n > 0,
    ensures
        ({
            let g = grid(
                n_panels_m as nat,
                n_panels_n as nat,
                nth as nat,
                panel_pair_bytes as nat,
                budget as nat,
            );
            &&& r.0 == g.nchunks_m
            &&& r.1 == g.nchunks_n
            &&& r.2 == g.dr_m
            &&& r.3 == g.dr_n
        }),
{
    let base: usize = if n_panels_m == 1 || n_panels_n == 1 { 64 } else { 16 };
    let size: usize = if panel_pair_bytes == 0 {
        base
    } else {
        let fitting: usize = budget / panel_pair_bytes;
        if fitting < 4 {
            4
        } else if fitting > base {
            base
        } else {
            fitting
        }
    };
    let cm: usize = math::div_ceil(n_panels_m, size);
    let cn: usize = math::div_ceil(n_panels_n, size);
    proof {
        assert(cm * cn <= n_panels_m * n_panels_n) by (nonlinear_arith)
            requires
                cm <= n_panels_m,
                cn <= n_panels_n,
        ;
        math::lemma_ceil_div(n_panels_m as nat, size as nat);
        math::lemma_ceil_div(n_panels_n as nat, size as nat);
    }
    let (nchunks_m, nchunks_n): (usize, usize) = if cm * cn < 4 * nth {
        if n_panels_m > n_panels_n {
            (nth, 1)
        } else {
            (1, nth)
        }
    } else {
        (cm, cn)
    };
    let dr_m: usize = math::div_ceil(n_panels_m, nchunks_m);
    let dr_n: usize = math::div_ceil(n_panels_n, nchunks_n);
    (
        nchunks_m,
        nchunks_n,
        if dr_m == 0 { 1 } else { dr_m },
        if dr_n == 0 { 1 } else { dr_n },
    )
}

/// The panels of chunk `idx`: from where to where along either axis. Where
/// there are more chunks than panels, the last ones start behind their end.
pub open spec fn chunk_bounds(g: Grid, n_panels_m: usize, n_panels_n: usize, idx: usize) -> (
    usize,
    usize,
    usize,
    usize,
) {
    let im = idx as nat % g.nchunks_m;
    let in_ = idx as nat / g.nchunks_m;
    (
        (im * g.dr_m) as usize,
        math::min((im * g.dr_m + g.dr_m) as int, n_panels_m as int) as usize,
        (in_ * g.dr_n) as usize,
        math::min((in_ * g.dr_n + g.dr_n) as int, n_panels_n as int) as usize,
    )
}

/// Whether panels `ia` and `ib` belong to a chunk.
pub open spec fn in_chunk(b: (usize, usize, usize, usize), ia: usize, ib: usize) -> bool {
    b.0 <= ia < b.1 && b.2 <= ib < b.3
}

/// The chunk of panels `ia` and `ib`.
pub open spec fn chunk_of(g: Grid, ia: usize, ib: usize) -> nat {
    (ib as nat / g.dr_n) * g.nchunks_m + ia as nat / g.dr_m
}

/// Whether a grid of panels is within what can be counted.
pub open spec fn countable(n_panels_m: usize, n_panels_n: usize) -> bool {
    &&& n_panels_m * n_panels_n <= usize::MAX
    &&& n_panels_m + 131072 <= usize::MAX
    &&& n_panels_n + 131072 <= usize::MAX
}

/// Facts about a grid of chunks that bounds are computed from.
proof fn lemma_grid(
    n_panels_m: usize,
    n_panels_n: usize,
    nth: nat,
    pair: nat,
    budget: nat,
)
    requires
        n_panels_m > 0,
        n_panels_n > 0,
        countable(n_panels_m, n_panels_n),
        1 <= nth <= 65535,
    ensures
        ({
            let g = grid(n_panels_m as nat, n_panels_n as nat, nth, pair, budget);
            &&& g.nchunks_m > 0
            &&& g.nchunks_n > 0
            &&& g.dr_m > 0
            &&& g.dr_n > 0
            &&& g.nchunks_m * g.nchunks_n <= usize::MAX
            &&& g.nchunks_m * g.dr_m >= n_panels_m
            &&& g.nchunks_n * g.dr_n >= n_panels_n
            &&& g.nchunks_m * g.dr_m <= usize::MAX
            &&& g.nchunks_n * g.dr_n <= usize::MAX
        }),
{
    let g = grid(n_panels_m as nat, n_panels_n as nat, nth, pair, budget);
    let size = chunk_size(n_panels_m as nat, n_panels_n as nat, pair, budget);
    law_chunks_fit_the_budget(n_panels_m as nat, n_panels_n as nat, pair, budget);
    math::lemma_ceil_div(n_panels_m as nat, size);
    math::lemma_ceil_div(n_panels_n as nat, size);
    let cm = math::ceil_div(n_panels_m as nat, size);
    let cn = math::ceil_div(n_panels_n as nat, size);
    lemma_chunks_reach(n_panels_m as nat, g.nchunks_m);
    lemma_chunks_reach(n_panels_n as nat, g.nchunks_n);
    if cm * cn < 4 * nth {
        assert(g.nchunks_m * g.nchunks_n == nth) by (nonlinear_arith)
            requires
                (g.nchunks_m == nth && g.nchunks_n == 1) || (g.nchunks_m == 1 && g.nchunks_n
                    == nth),
        ;
    } else {
        lemma_natural_chunks(n_panels_m as nat, size);
        lemma_natural_chunks(n_panels_n as nat, size);
        assert(cm * cn <= n_panels_m * n_panels_n) by (nonlinear_arith)
            requires
                cm <= n_panels_m,
                cn <= n_panels_n,
        ;
    }
}

/// Chunks of a given size along one axis: sharing the panels out evenly among
/// as many chunks as that takes makes none larger.
proof fn lemma_natural_chunks(n: nat, size: nat)
    requires
        n > 0,
        4 <= size <= 64,
    ensures
        ({
            let c = math::ceil_div(n, size);
            &&& c <= n
            &&& c * at_least_one(math::ceil_div(n, c)) < n + 64
        }),
{
    let c = math::ceil_div(n, size);
    math::lemma_ceil_div(n, size);
    math::lemma_ceil_div(n, c);
    let dr = math::ceil_div(n, c);
    assert(c <= n) by (nonlinear_arith)
        requires
            (c - 1) * size < n,
            size >= 1,
            c >= 1,
    ;
    assert(c * size == size * c) by (nonlinear_arith);
    assert((c - 1) * size == c * size - size) by (nonlinear_arith);
    assert(dr <= size) by (nonlinear_arith)
        requires
            (dr - 1) * c < n,
            n <= size * c,
            c >= 1,
    ;
    assert(c * dr <= c * size) by (nonlinear_arith)
        requires
            dr <= size,
    ;
}

/// Every pair of panels belongs to exactly one chunk.
pub proof fn law_chunks_partition_the_grid(
    n_panels_m: usize,
    n_panels_n: usize,
    nth: nat,
    pair: nat,
    budget: nat,
    ia: usize,
    ib: usize,
)
    requires
        countable(n_panels_m, n_panels_n),
        1 <= nth <= 65535,
        ia < n_panels_m,
        ib < n_panels_n,
    ensures
        ({
            let g = grid(n_panels_m as nat, n_panels_n as nat, nth, pair, budget);
            &&& chunk_of(g, ia, ib) < g.nchunks_m * g.nchunks_n
            &&& g.nchunks_m * g.nchunks_n <= usize::MAX
            &&& in_chunk(
                chunk_bounds(g, n_panels_m, n_panels_n, chunk_of(g, ia, ib) as usize),
                ia,
                ib,
            )
            &&& forall|idx: usize|
                idx < g.nchunks_m * g.nchunks_n && in_chunk(
                    #[trigger] chunk_bounds(g, n_panels_m, n_panels_n, idx),
                    ia,
                    ib,
                ) ==> idx == chunk_of(g, ia, ib)
        }),
{
    let g = grid(n_panels_m as nat, n_panels_n as nat, nth, pair, budget);
    lemma_grid(n_panels_m, n_panels_n, nth, pair, budget);
    lemma_in_block(ia as nat, g.dr_m, g.nchunks_m);
    lemma_in_block(ib as nat, g.dr_n, g.nchunks_n);
    let (im, in_) = (ia as nat / g.dr_m, ib as nat / g.dr_n);
    let idx = chunk_of(g, ia, ib);
    assert(idx < g.nchunks_m * g.nchunks_n) by (nonlinear_arith)
        requires
            idx == in_ * g.nchunks_m + im,
            im < g.nchunks_m,
            in_ + 1 <= g.nchunks_n,
    ;
    vstd::arithmetic::div_mod::lemma_fundamental_div_mod_converse(
        idx as int,
        g.nchunks_m as int,
        in_ as int,
        im as int,
    );
    lemma_block_ends(im, g.dr_m, g.nchunks_m);
    lemma_block_ends(in_, g.dr_n, g.nchunks_n);
    assert forall|k: usize|
        k < g.nchunks_m * g.nchunks_n && in_chunk(
            #[trigger] chunk_bounds(g, n_panels_m, n_panels_n, k),
            ia,
            ib,
        ) implies k == idx by {
        let (km, kn) = (k as nat % g.nchunks_m, k as nat / g.nchunks_m);
        vstd::arithmetic::div_mod::lemma_fundamental_div_mod(k as int, g.nchunks_m as int);
        assert(kn < g.nchunks_n) by (nonlinear_arith)
            requires
                k == g.nchunks_m * kn + km,
                km >= 0,
                k < g.nchunks_m * g.nchunks_n,
                g.nchunks_m > 0,
        ;
        lemma_block_ends(km, g.dr_m, g.nchunks_m);
        lemma_block_ends(kn, g.dr_n, g.nchunks_n);
        lemma_block_unique(ia as nat, g.dr_m, km);
        lemma_block_unique(ib as nat, g.dr_n, kn);
        assert(kn * g.nchunks_m == g.nchunks_m * kn) by (nonlinear_arith);
    }
}

/// Where an index falls among blocks of `dr`.
proof fn lemma_in_block(i: nat, dr: nat, n: nat)
    requires
        dr > 0,
        i < n * dr,
    ensures
        i / dr < n,
        (i / dr) * dr <= i < (i / dr) * dr + dr,
{
    vstd::arithmetic::div_mod::lemma_fundamental_div_mod(i as int, dr as int);
    let q = i / dr;
    assert(q * dr == dr * q) by (nonlinear_arith);
    assert(q < n) by (nonlinear_arith)
        requires
            i == dr * q + i % dr,
            i % dr >= 0,
            i < n * dr,
            dr > 0,
    ;
}

/// A block among `n` ends within all of them.
proof fn lemma_block_ends(k: nat, dr: nat, n: nat)
    requires
        k < n,
    ensures
        k * dr + dr <= n * dr,
{
    assert((k + 1) * dr <= n * dr) by (nonlinear_arith)
        requires
            k + 1 <= n,
    ;
    assert((k + 1) * dr == k * dr + dr) by (nonlinear_arith);
}

/// An index is in one block only.
proof fn lemma_block_unique(i: nat, dr: nat, k: nat)
    requires
        dr > 0,
        k * dr <= i < k * dr + dr,
    ensures
        i / dr == k,
{
    assert(k * dr == dr * k) by (nonlinear_arith);
    vstd::arithmetic::div_mod::lemma_fundamental_div_mod_converse(
        i as int,
        dr as int,
        k as int,
        i - k * dr,
    );
}

/// What came of handing all chunks of a grid out.
pub open spec fn spread<E, F: Fn(usize, usize, usize, usize) -> Result<(), E>>(
    run_chunk: F,
    g: Grid,
    n_panels_m: usize,
    n_panels_n: usize,
    r: Result<(), E>,
) -> bool {
    match r {
        Ok(u) => forall|idx: usize|
            idx < g.nchunks_m * g.nchunks_n ==> call_ensures(
                run_chunk,
                #[trigger] chunk_bounds(g, n_panels_m, n_panels_n, idx),
                Ok(u),
            ),
        Err(e) => exists|idx: usize|
            idx < g.nchunks_m * g.nchunks_n && call_ensures(
                run_chunk,
                #[trigger] chunk_bounds(g, n_panels_m, n_panels_n, idx),
                Err(e),
            ),
    }
}

/// What can come of dispatching a grid of panels: nothing is run on an empty
/// grid, one chunk on a grid of fewer panels than `threshold`, and otherwise
/// the chunks of the grid for as many threads as there are.
pub open spec fn dispatched<E, F: Fn(usize, usize, usize, usize) -> Result<(), E>>(
    run_chunk: F,
    n_panels_m: usize,
    n_panels_n: usize,
    threshold: usize,
    pair: usize,
    budget: usize,
    r: Result<(), E>,
) -> bool {
    if n_panels_m == 0 || n_panels_n == 0 {
        r == Ok::<(), E>(())
    } else if n_panels_m * n_panels_n < threshold {
        call_ensures(run_chunk, (0usize, n_panels_m, 0usize, n_panels_n), r)
    } else {
        exists|nth: nat|
            1 <= nth <= 65535 && spread(
                run_chunk,
                #[trigger] grid(
                    n_panels_m as nat,
                    n_panels_n as nat,
                    nth,
                    pair as nat,
                    budget as nat,
                ),
                n_panels_m,
                n_panels_n,
                r,
            )
    }
}

/// Has the chunks of a grid of panels run by as many threads as the current
/// pool has.
fn spread_over_threads<E: Send, F: Fn(usize, usize, usize, usize) -> Result<(), E> + Sync>(
    n_panels_m: usize,
    n_panels_n: usize,
    pair: usize,
    budget: usize,
    run_chunk: &F,
) -> (r: Result<(), E>)
    requires
        n_panels_m > 0,
        n_panels_n > 0,
        countable(n_panels_m, n_panels_n),
        forall|a0: usize, a1: usize, b0: usize, b1: usize|
            a1 <= n_panels_m && b1 <= n_panels_n ==> #[trigger] call_requires(
                *run_chunk,
                (a0, a1, b0, b1),
            ),
    ensures
        exists|nth: nat|
            1 <= nth <= 65535 && spread(
                *run_chunk,
                #[trigger] grid(
                    n_panels_m as nat,
                    n_panels_n as nat,
                    nth,
                    pair as nat,
                    budget as nat,
                ),
                n_panels_m,
                n_panels_n,
                r,
            ),
{
    let nth: usize = parallel::current_num_threads();
    let (nchunks_m, nchunks_n, dr_m, dr_n): (usize, usize, usize, usize) = chunk_grid(
        n_panels_m,
        n_panels_n,
        nth,
        pair,
        budget,
    );
    let ghost g = grid(
        n_panels_m as nat,
        n_panels_n as nat,
        nth as nat,
        pair as nat,
        budget as nat,
    );
    proof {
        lemma_grid(n_panels_m, n_panels_n, nth as nat, pair as nat, budget as nat);
    }
    let total: usize = nchunks_m * nchunks_n;
    let one = |idx: usize| -> (o: Result<(), E>)
        requires
            idx < total,
        ensures
            call_ensures(
                *run_chunk,
                chunk_bounds(
                    grid(
                        n_panels_m as nat,
                        n_panels_n as nat,
                        nth as nat,
                        pair as nat,
                        budget as nat,
                    ),
                    n_panels_m,
                    n_panels_n,
                    idx,
                ),
                o,
            ),
        {
            proof {
                lemma_chunk_index(idx as nat, nchunks_m as nat, nchunks_n as nat);
                lemma_block_ends(idx as nat % nchunks_m as nat, dr_m as nat, nchunks_m as nat);
                lemma_block_ends(idx as nat / nchunks_m as nat, dr_n as nat, nchunks_n as nat);
                assert(0 <= (idx % nchunks_m) * dr_m) by (nonlinear_arith)
                    requires
                        nchunks_m > 0,
                ;
                assert(0 <= (idx / nchunks_m) * dr_n) by (nonlinear_arith)
                    requires
                        nchunks_m > 0,
                ;
            }
            let im: usize = idx % nchunks_m;
            let in_: usize = idx / nchunks_m;
            let ia_start: usize = im * dr_m;
            let ia_end: usize = math::at_most(ia_start + dr_m, n_panels_m);
            let ib_start: usize = in_ * dr_n;
            let ib_end: usize = math::at_most(ib_start + dr_n, n_panels_n);
            run_chunk(ia_start, ia_end, ib_start, ib_end)
        };
    let r = parallel::par_try_for_each(total, one);
    proof {
        assert(spread(*run_chunk, g, n_panels_m, n_panels_n, r)) by {
            match r {
                Ok(u) => {
                    assert forall|idx: usize| idx < g.nchunks_m * g.nchunks_n implies call_ensures(
                        *run_chunk,
                        #[trigger] chunk_bounds(g, n_panels_m, n_panels_n, idx),
                        Ok(u),
                    ) by {
                        assert(call_ensures(one, (idx,), Ok(u)));
                    }
                },
                Err(e) => {
                    let idx = choose|idx: usize|
                        idx < total && #[trigger] call_ensures(one, (idx,), Err(e));
                    assert(call_ensures(
                        *run_chunk,
                        chunk_bounds(g, n_panels_m, n_panels_n, idx),
                        Err(e),
                    ));
                },
            }
        }
    }
    r
}

/// Where chunk `idx` stands in its grid.
proof fn lemma_chunk_index(idx: nat, nchunks_m: nat, nchunks_n: nat)
    requires
        idx < nchunks_m * nchunks_n,
        nchunks_m > 0,
    ensures
        idx % nchunks_m < nchunks_m,
        idx / nchunks_m < nchunks_n,
{
    vstd::arithmetic::div_mod::lemma_fundamental_div_mod(idx as int, nchunks_m as int);
    let q = idx / nchunks_m;
    assert(q < nchunks_n) by (nonlinear_arith)
        requires
            idx == nchunks_m * q + idx % nchunks_m,
            idx % nchunks_m >= 0,
            idx < nchunks_m * nchunks_n,
            nchunks_m > 0,
    ;
}

/// Runs a grid of panels in chunks. A grid of fewer panels than `threshold` is
/// one chunk on this thread. Otherwise the chunks go to the threads of `pool`,
/// or of the global pool where there is none or it has a single thread.
pub fn chunked_dispatch_rayon<E: Send, F: Fn(usize, usize, usize, usize) -> Result<(), E> + Sync>(
    pool: Option<&rayon::ThreadPool>,
    n_panels_m: usize,
    n_panels_n: usize,
    threshold: usize,
    panel_pair_bytes: usize,
    budget: usize,
    run_chunk: &F,
) -> (r: Result<(), E>)
    requires
        countable(n_panels_m, n_panels_n),
        forall|a0: usize, a1: usize, b0: usize, b1: usize|
            a1 <= n_panels_m && b1 <= n_panels_n ==> #[trigger] call_requires(
                *run_chunk,
                (a0, a1, b0, b1),
            ),
    ensures
        dispatched(
            *run_chunk,
            n_panels_m,
            n_panels_n,
            threshold,
            panel_pair_bytes,
            budget,
            r,
        ),
{
    if n_panels_m == 0 || n_panels_n == 0 {
        return Ok(());
    }
    if n_panels_m * n_panels_n < threshold {
        return run_chunk(0, n_panels_m, 0, n_panels_n);
    }
    let own: Option<&rayon::ThreadPool> = match pool {
        Some(p) => if parallel::pool_threads(p) <= 1 {
            None
        } else {
            Some(p)
        },
        None => None,
    };
    match own {
        None => spread_over_threads(n_panels_m, n_panels_n, panel_pair_bytes, budget, run_chunk),
        Some(p) => {
            let body = || -> (o: Result<(), E>)
                requires
                    n_panels_m > 0,
                    n_panels_n > 0,
                    countable(n_panels_m, n_panels_n),
                    forall|a0: usize, a1: usize, b0: usize, b1: usize|
                        a1 <= n_panels_m && b1 <= n_panels_n ==> #[trigger] call_requires(
                            *run_chunk,
                            (a0, a1, b0, b1),
                        ),
                ensures
                    exists|nth: nat|
                        1 <= nth <= 65535 && spread(
                            *run_chunk,
                            #[trigger] grid(
                                n_panels_m as nat,
                                n_panels_n as nat,
                                nth,
                                panel_pair_bytes as nat,
                                budget as nat,
                            ),
                            n_panels_m,
                            n_panels_n,
                            o,
                        ),
                {
                    spread_over_threads(
                        n_panels_m,
                        n_panels_n,
                        panel_pair_bytes,
                        budget,
                        run_chunk,
                    )
                };
            parallel::install(p, body)
        },
    }
}

/// Who runs the tiles.
#[derive(Clone, Copy)]
pub enum Executor<'a> {
    /// This thread.
    SingleThread,
    /// The threads of a pool.
    MultiThread(&'a rayon::ThreadPool),
    /// The threads of the global pool.
    RayonGlobal,
}

/// What can come of the tile of panels `ia` and `ib`.
pub open spec fn tile<K: MatMatMul>(
    ker: &K,
    specs: &[FusedSpec],
    ia: usize,
    ib: usize,
    r: Result<(), K::Error>,
) -> bool {
    call_ensures(K::run_one_tile, (ker, specs, ia, ib), r)
}

/// Whether every tile of a chunk succeeded.
pub open spec fn all_done<K: MatMatMul>(
    ker: &K,
    specs: &[FusedSpec],
    b: (usize, usize, usize, usize),
) -> bool {
    forall|ia: usize, ib: usize|
        in_chunk(b, ia, ib) ==> #[trigger] tile(ker, specs, ia, ib, Ok(()))
}

/// Whether panels `ja` and `jb` come before `ia` and `ib`, with columns outside
/// or rows.
pub open spec fn earlier(col_outer: bool, ja: usize, jb: usize, ia: usize, ib: usize) -> bool {
    if col_outer {
        jb < ib || (jb == ib && ja < ia)
    } else {
        ja < ia || (ja == ia && jb < ib)
    }
}

/// Whether the tile of panels `ia` and `ib` is the first to fail in a chunk.
pub open spec fn failed_at<K: MatMatMul>(
    ker: &K,
    specs: &[FusedSpec],
    col_outer: bool,
    b: (usize, usize, usize, usize),
    ia: usize,
    ib: usize,
    e: K::Error,
) -> bool {
    &&& in_chunk(b, ia, ib)
    &&& tile(ker, specs, ia, ib, Err(e))
    &&& forall|ja: usize, jb: usize|
        in_chunk(b, ja, jb) && earlier(col_outer, ja, jb, ia, ib) ==> #[trigger] tile(
            ker,
            specs,
            ja,
            jb,
            Ok(()),
        )
}

/// What came of running the tiles of a chunk in order, up to the first failure.
pub open spec fn swept<K: MatMatMul>(
    ker: &K,
    specs: &[FusedSpec],
    col_outer: bool,
    b: (usize, usize, usize, usize),
    r: Result<(), K::Error>,
) -> bool {
    match r {
        Ok(_) => all_done(ker, specs, b),
        Err(e) => exists|ia: usize, ib: usize| #[trigger]
            failed_at(ker, specs, col_outer, b, ia, ib, e),
    }
}

/// Runs the tiles of a chunk, rows outside.
fn sweep_rows<K: MatMatMul>(
    ker: &K,
    specs: &[FusedSpec],
    a0: usize,
    a1: usize,
    b0: usize,
    b1: usize,
) -> (r: Result<(), K::Error>)
    ensures
        swept(ker, specs, false, (a0, a1, b0, b1), r),
{
    let mut ia: usize = a0;
    while ia < a1
        invariant
            a0 <= ia,
            forall|ja: usize, jb: usize|
                a0 <= ja < ia && b0 <= jb < b1 ==> #[trigger] tile(ker, specs, ja, jb, Ok(())),
        decreases a1 - ia,
    {
        let mut ib: usize = b0;
        while ib < b1
            invariant
                a0 <= ia < a1,
                b0 <= ib,
                forall|ja: usize, jb: usize|
                    a0 <= ja < ia && b0 <= jb < b1 ==> #[trigger] tile(ker, specs, ja, jb, Ok(())),
                forall|jb: usize|
                    b0 <= jb < ib && jb < b1 ==> #[trigger] tile(ker, specs, ia, jb, Ok(())),
            decreases b1 - ib,
        {
            match ker.run_one_tile(specs, ia, ib) {
                Ok(u) => {
                    assert(tile(ker, specs, ia, ib, Ok(u)));
                    assert(u == ());
                },
                Err(e) => {
                    assert(failed_at(ker, specs, false, (a0, a1, b0, b1), ia, ib, e));
                    return Err(e);
                },
            }
            ib += 1;
        }
        ia += 1;
    }
    Ok(())
}

/// Runs the tiles of a chunk, columns outside.
fn sweep_columns<K: MatMatMul>(
    ker: &K,
    specs: &[FusedSpec],
    a0: usize,
    a1: usize,
    b0: usize,
    b1: usize,
) -> (r: Result<(), K::Error>)
    ensures
        swept(ker, specs, true, (a0, a1, b0, b1), r),
{
    let mut ib: usize = b0;
    while ib < b1
        invariant
            b0 <= ib,
            forall|ja: usize, jb: usize|
                a0 <= ja < a1 && b0 <= jb < ib ==> #[trigger] tile(ker, specs, ja, jb, Ok(())),
        decreases b1 - ib,
    {
        let mut ia: usize = a0;
        while ia < a1
            invariant
                b0 <= ib < b1,
                a0 <= ia,
                forall|ja: usize, jb: usize|
                    a0 <= ja < a1 && b0 <= jb < ib ==> #[trigger] tile(ker, specs, ja, jb, Ok(())),
                forall|ja: usize|
                    a0 <= ja < ia && ja < a1 ==> #[trigger] tile(ker, specs, ja, ib, Ok(())),
            decreases a1 - ia,
        {
            match ker.run_one_tile(specs, ia, ib) {
                Ok(u) => {
                    assert(tile(ker, specs, ia, ib, Ok(u)));
                    assert(u == ());
                },
                Err(e) => {
                    assert(failed_at(ker, specs, true, (a0, a1, b0, b1), ia, ib, e));
                    return Err(e);
                },
            }
            ia += 1;
        }
        ib += 1;
    }
    Ok(())
}

/// What can come of all tiles of a grid of panels, whoever runs them: success
/// means that every tile succeeded, and an error is that of some tile. On one
/// thread it is that of the first to fail.
pub open spec fn ran<K: MatMatMul>(
    ker: &K,
    specs: &[FusedSpec],
    executor: Executor,
    col_outer: bool,
    n_panels_m: usize,
    n_panels_n: usize,
    r: Result<(), K::Error>,
) -> bool {
    let all = (0usize, n_panels_m, 0usize, n_panels_n);
    &&& match r {
        Ok(_) => all_done(ker, specs, all),
        Err(e) => exists|ia: usize, ib: usize|
            in_chunk(all, ia, ib) && #[trigger] tile(ker, specs, ia, ib, Err(e)),
    }
    &&& executor is SingleThread ==> swept(ker, specs, col_outer, all, r)
}

/// What can be driven: a kernel whose tiles have an extent, and where threads
/// share the work, on a grid of panels that can be counted.
pub open spec fn drivable<K: MatMatMul>(
    ker: &K,
    m: usize,
    n: usize,
    executor: Executor,
    specs: &[FusedSpec],
) -> bool {
    &&& steady(ker)
    &&& ker.mr_spec() > 0
    &&& ker.nr_spec() > 0
    &&& !(executor is SingleThread) ==> {
        &&& ker.mr_spec() * 8 + ker.nr_spec() * 8 <= usize::MAX
        &&& pair_bytes(ker.mr_spec(), ker.nr_spec(), ker.internal_type_spec(), specs@)
            <= usize::MAX
        &&& countable(
            math::ceil_div(m as nat, ker.mr_spec() as nat) as usize,
            math::ceil_div(n as nat, ker.nr_spec() as nat) as usize,
        )
    }
}

/// Chunks that were all swept cover the grid, and an error of a chunk is that of
/// one of its tiles.
proof fn lemma_dispatched_ran<K: MatMatMul, F: Fn(usize, usize, usize, usize) -> Result<
    (),
    K::Error,
>>(
    ker: &K,
    specs: &[FusedSpec],
    run_chunk: F,
    col_outer: bool,
    n_panels_m: usize,
    n_panels_n: usize,
    threshold: usize,
    pair: usize,
    budget: usize,
    r: Result<(), K::Error>,
)
    requires
        countable(n_panels_m, n_panels_n),
        dispatched(run_chunk, n_panels_m, n_panels_n, threshold, pair, budget, r),
        forall|a0: usize, a1: usize, b0: usize, b1: usize, o: Result<(), K::Error>| #[trigger]
            call_ensures(run_chunk, (a0, a1, b0, b1), o) ==> swept(
                ker,
                specs,
                col_outer,
                (a0, a1, b0, b1),
                o,
            ),
    ensures
        match r {
            Ok(_) => all_done(ker, specs, (0usize, n_panels_m, 0usize, n_panels_n)),
            Err(e) => exists|ia: usize, ib: usize|
                in_chunk((0usize, n_panels_m, 0usize, n_panels_n), ia, ib) && #[trigger] tile(
                    ker,
                    specs,
                    ia,
                    ib,
                    Err(e),
                ),
        },
{
    let all = (0usize, n_panels_m, 0usize, n_panels_n);
    if n_panels_m == 0 || n_panels_n == 0 {
    } else if n_panels_m * n_panels_n < threshold {
        assert(swept(ker, specs, col_outer, all, r));
        if let Err(e) = r {
            let (ia, ib) = choose|ia: usize, ib: usize| #[trigger]
                failed_at(ker, specs, col_outer, all, ia, ib, e);
            assert(tile(ker, specs, ia, ib, Err(e)));
        }
    } else {
        let nth = choose|nth: nat|
            1 <= nth <= 65535 && spread(
                run_chunk,
                #[trigger] grid(
                    n_panels_m as nat,
                    n_panels_n as nat,
                    nth,
                    pair as nat,
                    budget as nat,
                ),
                n_panels_m,
                n_panels_n,
                r,
            );
        let g = grid(n_panels_m as nat, n_panels_n as nat, nth, pair as nat, budget as nat);
        match r {
            Ok(u) => {
                assert forall|ia: usize, ib: usize| in_chunk(all, ia, ib) implies #[trigger] tile(
                    ker,
                    specs,
                    ia,
                    ib,
                    Ok(()),
                ) by {
                    law_chunks_partition_the_grid(
                        n_panels_m,
                        n_panels_n,
                        nth,
                        pair as nat,
                        budget as nat,
                        ia,
                        ib,
                    );
                    let idx = chunk_of(g, ia, ib) as usize;
                    let b = chunk_bounds(g, n_panels_m, n_panels_n, idx);
                    assert(call_ensures(run_chunk, b, Ok(u)));
                    assert(call_ensures(run_chunk, (b.0, b.1, b.2, b.3), Ok(u)));
                    assert(swept(ker, specs, col_outer, (b.0, b.1, b.2, b.3), Ok(u)));
                    assert(in_chunk(b, ia, ib));
                }
            },
            Err(e) => {
                let idx = choose|idx: usize|
                    idx < g.nchunks_m * g.nchunks_n && call_ensures(
                        run_chunk,
                        #[trigger] chunk_bounds(g, n_panels_m, n_panels_n, idx),
                        Err(e),
                    );
                let b = chunk_bounds(g, n_panels_m, n_panels_n, idx);
                assert(call_ensures(run_chunk, (b.0, b.1, b.2, b.3), Err(e)));
                let c = (b.0, b.1, b.2, b.3);
                assert(swept(ker, specs, col_outer, c, Err(e)));
                let (ia, ib) = choose|ia: usize, ib: usize| #[trigger]
                    failed_at(ker, specs, col_outer, c, ia, ib, e);
                assert(tile(ker, specs, ia, ib, Err(e)));
                assert(in_chunk(all, ia, ib));
            },
        }
    }
}

/// Drives a product with one panel of columns of width 1.
pub fn run_with_scratch_space_vec<K: MatMatMul>(
    ker: &K,
    m: usize,
    executor: Executor,
    threshold: usize,
    budget: usize,
    non_linear: &[FusedSpec],
) -> (r: Result<(), K::Error>)
    requires
        drivable(ker, m, 1, executor, non_linear),
        ker.nr_spec() == 1,
    ensures
        ran(
            ker,
            non_linear,
            executor,
            false,
            math::ceil_div(m as nat, ker.mr_spec() as nat) as usize,
            1,
            r,
        ),
{
    run_with_scratch_space_row_outer(ker, m, 1, executor, threshold, budget, non_linear)
}

/// Drives a product with columns outside.
pub fn run_with_scratch_space_col_outer<K: MatMatMul>(
    ker: &K,
    m: usize,
    n: usize,
    executor: Executor,
    threshold: usize,
    budget: usize,
    non_linear: &[FusedSpec],
) -> (r: Result<(), K::Error>)
    requires
        drivable(ker, m, n, executor, non_linear),
    ensures
        ran(
            ker,
            non_linear,
            executor,
            true,
            math::ceil_div(m as nat, ker.mr_spec() as nat) as usize,
            math::ceil_div(n as nat, ker.nr_spec() as nat) as usize,
            r,
        ),
{
    let pm: usize = math::div_ceil(m, rows_of(ker));
    let pn: usize = math::div_ceil(n, columns_of(ker));
    let pool: Option<&rayon::ThreadPool> = match executor {
        Executor::SingleThread => {
            let r = sweep_columns(ker, non_linear, 0, pm, 0, pn);
            proof {
                lemma_swept_ran(ker, non_linear, true, pm, pn, r);
            }
            return r;
        },
        Executor::MultiThread(pool) => Some(pool),
        Executor::RayonGlobal => None,
    };
    let pair: usize = add_mat_mul_panel_pair_bytes(ker, non_linear);
    let run_chunk = |a0: usize, a1: usize, b0: usize, b1: usize| -> (o: Result<(), K::Error>)
        ensures
            swept(ker, non_linear, true, (a0, a1, b0, b1), o),
        { sweep_columns(ker, non_linear, a0, a1, b0, b1) };
    let r = chunked_dispatch_rayon(pool, pm, pn, threshold, pair, budget, &run_chunk);
    proof {
        lemma_dispatched_ran(
            ker,
            non_linear,
            run_chunk,
            true,
            pm,
            pn,
            threshold,
            pair,
            budget,
            r,
        );
    }
    r
}

/// Drives a product with rows outside.
pub fn run_with_scratch_space_row_outer<K: MatMatMul>(
    ker: &K,
    m: usize,
    n: usize,
    executor: Executor,
    threshold: usize,
    budget: usize,
    non_linear: &[FusedSpec],
) -> (r: Result<(), K::Error>)
    requires
        drivable(ker, m, n, executor, non_linear),
    ensures
        ran(
            ker,
            non_linear,
            executor,
            false,
            math::ceil_div(m as nat, ker.mr_spec() as nat) as usize,
            math::ceil_div(n as nat, ker.nr_spec() as nat) as usize,
            r,
        ),
{
    let pm: usize = math::div_ceil(m, rows_of(ker));
    let pn: usize = math::div_ceil(n, columns_of(ker));
    let pool: Option<&rayon::ThreadPool> = match executor {
        Executor::SingleThread => {
            let r = sweep_rows(ker, non_linear, 0, pm, 0, pn);
            proof {
                lemma_swept_ran(ker, non_linear, false, pm, pn, r);
            }
            return r;
        },
        Executor::MultiThread(pool) => Some(pool),
        Executor::RayonGlobal => None,
    };
    let pair: usize = add_mat_mul_panel_pair_bytes(ker, non_linear);
    let run_chunk = |a0: usize, a1: usize, b0: usize, b1: usize| -> (o: Result<(), K::Error>)
        ensures
            swept(ker, non_linear, false, (a0, a1, b0, b1), o),
        { sweep_rows(ker, non_linear, a0, a1, b0, b1) };
    let r = chunked_dispatch_rayon(pool, pm, pn, threshold, pair, budget, &run_chunk);
    proof {
        lemma_dispatched_ran(
            ker,
            non_linear,
            run_chunk,
            false,
            pm,
            pn,
            threshold,
            pair,
            budget,
            r,
        );
    }
    r
}

/// A sweep of the whole grid ran it.
proof fn lemma_swept_ran<K: MatMatMul>(
    ker: &K,
    specs: &[FusedSpec],
    col_outer: bool,
    pm: usize,
    pn: usize,
    r: Result<(), K::Error>,
)
    requires
        swept(ker, specs, col_outer, (0usize, pm, 0usize, pn), r),
    ensures
        ran(ker, specs, Executor::SingleThread, col_outer, pm, pn, r),
{
    let all = (0usize, pm, 0usize, pn);
    if let Err(e) = r {
        let (ia, ib) = choose|ia: usize, ib: usize| #[trigger]
            failed_at(ker, specs, col_outer, all, ia, ib, e);
        assert(in_chunk(all, ia, ib) && tile(ker, specs, ia, ib, Err(e)));
    }
}

/// The order that the last step with a preference has; rows outside where none
/// has one.
pub open spec fn prefers_col_outer(specs: Seq<FusedSpec>) -> bool
    decreases specs.len(),
{
    if specs.len() == 0 {
        false
    } else {
        match specs.last().prefer_col_outer {
            Some(col) => col,
            None => prefers_col_outer(specs.drop_last()),
        }
    }
}

/// Drives a product of `m` rows and `n` columns, in the order that its steps
/// prefer. What came of preparing the kernel's scratch space is handed in: no
/// tile is run where that failed.
pub fn run_with_scratch_space<K: MatMatMul>(
    ker: &K,
    m: usize,
    n: usize,
    prepared: Result<(), K::Error>,
    executor: Executor,
    threshold: usize,
    budget: usize,
    non_linear: &[FusedSpec],
) -> (r: Result<(), K::Error>)
    requires
        drivable(ker, m, n, executor, non_linear),
    ensures
        match prepared {
            Err(e) => r == Err::<(), K::Error>(e),
            Ok(_) => ran(
                ker,
                non_linear,
                executor,
                !(n == 1 && ker.nr_spec() == 1) && prefers_col_outer(non_linear@),
                math::ceil_div(m as nat, ker.mr_spec() as nat) as usize,
                math::ceil_div(n as nat, ker.nr_spec() as nat) as usize,
                r,
            ),
        },
{
    if let Err(e) = prepared {
        return Err(e);
    }
    if n == 1 && columns_of(ker) == 1 {
        return run_with_scratch_space_vec(ker, m, executor, threshold, budget, non_linear);
    }
    let mut prefer_col: bool = false;
    let mut i: usize = 0;
    assert(non_linear@.take(0) =~= Seq::<FusedSpec>::empty());
    while i < non_linear.len()
        invariant
            i <= non_linear@.len(),
            prefer_col == prefers_col_outer(non_linear@.take(i as int)),
        decreases non_linear@.len() - i,
    {
        assert(non_linear@.take(i + 1).drop_last() =~= non_linear@.take(i as int));
        assert(non_linear@.take(i + 1).last() == non_linear@[i as int]);
        if let Some(col) = non_linear[i].prefer_col_outer {
            prefer_col = col;
        }
        i += 1;
    }
    assert(non_linear@.take(i as int) =~= non_linear@);
    if prefer_col {
        run_with_scratch_space_col_outer(ker, m, n, executor, threshold, budget, non_linear)
    } else {
        run_with_scratch_space_row_outer(ker, m, n, executor, threshold, budget, non_linear)
    }
}

/// What comes of a product of `m` rows and `n` columns on a kernel whose tiles have
/// `mr` rows and `nr` columns. After success every tile that holds a row and a column
/// of the product has been run, and succeeded. An error is that of such a tile; on one
/// thread, of the first that failed, all tiles before it having succeeded: row by row,
/// or column by column where columns are outside.
pub proof fn law_every_tile_is_run<K: MatMatMul>(
    ker: &K,
    specs: &[FusedSpec],
    executor: Executor,
    col_outer: bool,
    m: usize,
    n: usize,
    mr: usize,
    nr: usize,
    r: Result<(), K::Error>,
)
    requires
        mr > 0,
        nr > 0,
        ran(
            ker,
            specs,
            executor,
            col_outer,
            math::ceil_div(m as nat, mr as nat) as usize,
            math::ceil_div(n as nat, nr as nat) as usize,
            r,
        ),
    ensures
        r is Ok ==> forall|ia: usize, ib: usize|
            ia * mr < m && ib * nr < n ==> #[trigger] call_ensures(
                K::run_one_tile,
                (ker, specs, ia, ib),
                Ok(()),
            ),
        r matches Err(e) ==> exists|ia: usize, ib: usize|
            #![trigger call_ensures(K::run_one_tile, (ker, specs, ia, ib), Err(e))]
            {
                &&& ia * mr < m && ib * nr < n
                &&& call_ensures(K::run_one_tile, (ker, specs, ia, ib), Err(e))
                &&& executor is SingleThread ==> forall|ja: usize, jb: usize|
                    ja * mr < m && jb * nr < n && (if col_outer {
                        jb < ib || (jb == ib && ja < ia)
                    } else {
                        ja < ia || (ja == ia && jb < ib)
                    }) ==> #[trigger] call_ensures(
                        K::run_one_tile,
                        (ker, specs, ja, jb),
                        Ok(()),
                    )
            },
{
    let pm = math::ceil_div(m as nat, mr as nat) as usize;
    let pn = math::ceil_div(n as nat, nr as nat) as usize;
    let all = (0usize, pm, 0usize, pn);
    lemma_panels(m, mr);
    lemma_panels(n, nr);
    assert forall|ia: usize, ib: usize| ia * mr < m && ib * nr < n implies #[trigger] in_chunk(
        all,
        ia,
        ib,
    ) by {}
    if r is Ok {
        assert forall|ia: usize, ib: usize|
            ia * mr < m && ib * nr < n implies #[trigger] call_ensures(
            K::run_one_tile,
            (ker, specs, ia, ib),
            Ok(()),
        ) by {
            assert(in_chunk(all, ia, ib));
            assert(tile(ker, specs, ia, ib, Ok(())));
        }
    }
    if let Err(e) = r {
        if executor is SingleThread {
            let (ia, ib) = choose|ia: usize, ib: usize| #[trigger]
                failed_at(ker, specs, col_outer, all, ia, ib, e);
            assert(call_ensures(K::run_one_tile, (ker, specs, ia, ib), Err(e)));
            assert(ia * mr < m && ib * nr < n);
            assert forall|ja: usize, jb: usize|
                ja * mr < m && jb * nr < n && (if col_outer {
                    jb < ib || (jb == ib && ja < ia)
                } else {
                    ja < ia || (ja == ia && jb < ib)
                }) implies #[trigger] call_ensures(K::run_one_tile, (ker, specs, ja, jb), Ok(())) by {
                assert(in_chunk(all, ja, jb));
                assert(tile(ker, specs, ja, jb, Ok(())));
            }
        } else {
            let (ia, ib) = choose|ia: usize, ib: usize|
                in_chunk(all, ia, ib) && #[trigger] tile(ker, specs, ia, ib, Err(e));
            assert(call_ensures(K::run_one_tile, (ker, specs, ia, ib), Err(e)));
            assert(ia * mr < m && ib * nr < n);
        }
    }
}

/// A panel starts within a length exactly where its place is below the number of
/// panels.
proof fn lemma_panels(m: usize, mr: usize)
    requires
        mr > 0,
    ensures
        math::ceil_div(m as nat, mr as nat) <= m,
        forall|i: usize|
            #![trigger i * mr]
            i * mr < m <==> i < math::ceil_div(m as nat, mr as nat),
{
    math::lemma_ceil_div(m as nat, mr as nat);
    let q = math::ceil_div(m as nat, mr as nat) as int;
    assert(q <= m) by (nonlinear_arith)
        requires
            m > 0 ==> (q - 1) * mr < m,
            m == 0 ==> q == 0,
            mr > 0,
    ;
    assert forall|i: usize|
        #![trigger i * mr]
        i * mr < m <==> i < math::ceil_div(m as nat, mr as nat) by {
        if i < q {
            assert(i * mr <= (q - 1) * mr) by (nonlinear_arith)
                requires
                    i <= q - 1,
                    mr > 0,
            ;
        } else {
            assert(i * mr >= q * mr) by (nonlinear_arith)
                requires
                    i >= q,
                    mr > 0,
            ;
        }
    }
}

/// The size of a chunk, written out: 64 panels where there is one panel along an axis
/// and 16 otherwise; but no more than there are pairs of panels in the budget, down to
/// 4, where there is a product.
pub proof fn law_chunk_size_is_what_the_budget_holds(
    n_panels_m: nat,
    n_panels_n: nat,
    pair: nat,
    budget: nat,
)
    ensures
        ({
            let size = chunk_size(n_panels_m, n_panels_n, pair, budget) as int;
            let most: int = if n_panels_m == 1 || n_panels_n == 1 {
                64
            } else {
                16
            };
            &&& pair == 0 ==> size == most
            &&& pair > 0 ==> {
                &&& 4 <= size <= most
                &&& size > 4 ==> size * pair <= budget
                &&& size < most ==> (size + 1) * pair > budget
            }
        }),
{
    law_chunks_fit_the_budget(n_panels_m, n_panels_n, pair, budget);
    let size = chunk_size(n_panels_m, n_panels_n, pair, budget) as int;
    if pair > 0 {
        vstd::arithmetic::div_mod::lemma_fundamental_div_mod(budget as int, pair as int);
        let q = (budget / pair) as int;
        if size >= q {
            assert((size + 1) * pair > budget) by (nonlinear_arith)
                requires
                    size >= q,
                    budget == pair * q + budget as int % pair as int,
                    (budget as int % pair as int) < pair,
                    pair > 0,
            ;
        }
    }
}

/// The grid of chunks, written out: as many chunks of the usual size along each axis as
/// reach its end; or, where these are fewer than four for every thread, one for every
/// thread along the axis with more panels, and one along the other. Chunks along an axis
/// are as short as that many can be, and not empty.
pub proof fn law_grid_feeds_every_thread(
    n_panels_m: nat,
    n_panels_n: nat,
    nth: nat,
    pair: nat,
    budget: nat,
)
    requires
        n_panels_m > 0,
        n_panels_n > 0,
        nth > 0,
    ensures
        ({
            let size = chunk_size(n_panels_m, n_panels_n, pair, budget) as int;
            let g = grid(n_panels_m, n_panels_n, nth, pair, budget);
            let (cm, cn) = ((n_panels_m + size - 1) / size, (n_panels_n + size - 1) / size);
            &&& cm * cn >= 4 * nth ==> g.nchunks_m == cm && g.nchunks_n == cn
            &&& cm * cn < 4 * nth && n_panels_m > n_panels_n ==> g.nchunks_m == nth && g.nchunks_n
                == 1
            &&& cm * cn < 4 * nth && n_panels_m <= n_panels_n ==> g.nchunks_m == 1 && g.nchunks_n
                == nth
            &&& g.dr_m >= 1 && g.dr_n >= 1
            &&& g.dr_m * g.nchunks_m >= n_panels_m && (g.dr_m - 1) * g.nchunks_m < n_panels_m
            &&& g.dr_n * g.nchunks_n >= n_panels_n && (g.dr_n - 1) * g.nchunks_n < n_panels_n
        }),
{
    law_chunks_fit_the_budget(n_panels_m, n_panels_n, pair, budget);
    let size = chunk_size(n_panels_m, n_panels_n, pair, budget);
    let g = grid(n_panels_m, n_panels_n, nth, pair, budget);
    lemma_rounded_up(n_panels_m, size);
    lemma_rounded_up(n_panels_n, size);
    math::lemma_ceil_div(n_panels_m, size);
    math::lemma_ceil_div(n_panels_n, size);
    math::lemma_ceil_div(n_panels_m, g.nchunks_m);
    math::lemma_ceil_div(n_panels_n, g.nchunks_n);
}

/// A rounded quotient, in one division.
proof fn lemma_rounded_up(a: nat, b: nat)
    requires
        b > 0,
    ensures
        math::ceil_div(a, b) == (a + b - 1) / b as int,
{
    math::lemma_ceil_div(a, b);
    let q = math::ceil_div(a, b) as int;
    if a > 0 {
        let r = a + b - 1 - q * b;
        assert(0 <= r < b) by (nonlinear_arith)
            requires
                r == a + b - 1 - q * b,
                q * b >= a,
                (q - 1) * b < a,
        ;
        vstd::arithmetic::div_mod::lemma_fundamental_div_mod_converse(
            a + b - 1,
            b as int,
            q,
            r,
        );
    } else {
        vstd::arithmetic::div_mod::lemma_fundamental_div_mod_converse(
            a + b - 1,
            b as int,
            0,
            b - 1,
        );
    }
}

/// What comes of dispatching a grid of panels. Nothing is run where an axis has no
/// panel; a grid below the threshold is run as one chunk. Otherwise, after success,
/// every pair of panels lies in a chunk within the grid that was run and succeeded, and
/// an error is that of a chunk.
pub proof fn law_dispatch_covers_all_panels<
    E,
    F: Fn(usize, usize, usize, usize) -> Result<(), E>,
>(
    run_chunk: F,
    n_panels_m: usize,
    n_panels_n: usize,
    threshold: usize,
    pair: usize,
    budget: usize,
    r: Result<(), E>,
    ia: usize,
    ib: usize,
)
    requires
        countable(n_panels_m, n_panels_n),
        dispatched(run_chunk, n_panels_m, n_panels_n, threshold, pair, budget, r),
    ensures
        n_panels_m == 0 || n_panels_n == 0 ==> r is Ok,
        n_panels_m > 0 && n_panels_n > 0 && n_panels_m * n_panels_n < threshold ==> call_ensures(
            run_chunk,
            (0usize, n_panels_m, 0usize, n_panels_n),
            r,
        ),
        ia < n_panels_m && ib < n_panels_n && r is Ok ==> exists|
            a0: usize,
            a1: usize,
            b0: usize,
            b1: usize,
        |
            #![trigger call_ensures(run_chunk, (a0, a1, b0, b1), Ok(()))]
            {
                &&& a0 <= ia < a1 <= n_panels_m
                &&& b0 <= ib < b1 <= n_panels_n
                &&& call_ensures(run_chunk, (a0, a1, b0, b1), Ok(()))
            },
        n_panels_m > 0 && n_panels_n > 0 ==> (r matches Err(e) ==> exists|
            a0: usize,
            a1: usize,
            b0: usize,
            b1: usize,
        | #[trigger] call_ensures(run_chunk, (a0, a1, b0, b1), Err(e))),
{
    if n_panels_m > 0 && n_panels_n > 0 {
        if n_panels_m * n_panels_n < threshold {
            match r {
                Ok(_) => {
                    assert(call_ensures(
                        run_chunk,
                        (0usize, n_panels_m, 0usize, n_panels_n),
                        Ok(()),
                    ));
                },
                Err(e) => {
                    assert(call_ensures(
                        run_chunk,
                        (0usize, n_panels_m, 0usize, n_panels_n),
                        Err(e),
                    ));
                },
            }
        } else {
            let nth = choose|nth: nat|
                1 <= nth <= 65535 && spread(
                    run_chunk,
                    #[trigger] grid(
                        n_panels_m as nat,
                        n_panels_n as nat,
                        nth,
                        pair as nat,
                        budget as nat,
                    ),
                    n_panels_m,
                    n_panels_n,
                    r,
                );
            let g = grid(n_panels_m as nat, n_panels_n as nat, nth, pair as nat, budget as nat);
            match r {
                Ok(u) => {
                    if ia < n_panels_m && ib < n_panels_n {
                        law_chunks_partition_the_grid(
                            n_panels_m,
                            n_panels_n,
                            nth,
                            pair as nat,
                            budget as nat,
                            ia,
                            ib,
                        );
                        let idx = chunk_of(g, ia, ib) as usize;
                        let b = chunk_bounds(g, n_panels_m, n_panels_n, idx);
                        assert(call_ensures(run_chunk, b, Ok(u)));
                        assert(call_ensures(run_chunk, (b.0, b.1, b.2, b.3), Ok(())));
                    }
                },
                Err(e) => {
                    let idx = choose|idx: usize|
                        idx < g.nchunks_m * g.nchunks_n && call_ensures(
                            run_chunk,
                            #[trigger] chunk_bounds(g, n_panels_m, n_panels_n, idx),
                            Err(e),
                        );
                    let b = chunk_bounds(g, n_panels_m, n_panels_n, idx);
                    assert(call_ensures(run_chunk, (b.0, b.1, b.2, b.3), Err(e)));
                },
            }
        }
    }
}

/// The bytes of a pair of panels are those of the first product among the steps: `k`
/// elements for each row of a tile and `k` for each column. Without a product there are
/// none. A packed matrix counts as elements of the kernel's own type.
pub proof fn law_pair_of_panels_is_counted_in_bytes(
    mr: usize,
    nr: usize,
    internal: DatumType,
    specs: Seq<FusedSpec>,
    i: int,
)
    requires
        forall|j: int|
            0 <= j < specs.len() && j < i ==> (#[trigger] specs[j]).add_mat_mul is None,
        0 <= i <= specs.len(),
    ensures
        i == specs.len() ==> pair_bytes(mr, nr, internal, specs) == 0,
        i < specs.len() && specs[i].add_mat_mul is Some ==> {
            let p = specs[i].add_mat_mul->0;
            let bytes = |w: WeightType|
                match w {
                    WeightType::Plain(dt) => dt.size(),
                    WeightType::Packed => internal.size(),
                };
            pair_bytes(mr, nr, internal, specs) == p.k * mr * bytes(p.a) + p.k * nr * bytes(p.b)
        },
    decreases i,
{
    lemma_first_product(specs, i);
    if i < specs.len() && specs[i].add_mat_mul is Some {
        let p = specs[i].add_mat_mul->0;
        let (a, b) = (element_size(p.a, internal), element_size(p.b, internal));
        let k = p.k;
        assert(k * (mr * a + nr * b) == k * mr * a + k * nr * b) by (nonlinear_arith);
        assert(k * mr * a + k * nr * b >= 0) by (nonlinear_arith)
            requires
                k >= 0,
                mr >= 0,
                nr >= 0,
                a >= 0,
                b >= 0,
        ;
    }
}

/// The first product is the one that none comes before.
proof fn lemma_first_product(specs: Seq<FusedSpec>, i: int)
    requires
        forall|j: int|
            0 <= j < specs.len() && j < i ==> (#[trigger] specs[j]).add_mat_mul is None,
        0 <= i <= specs.len(),
    ensures
        i == specs.len() ==> first_product(specs) is None,
        i < specs.len() && specs[i].add_mat_mul is Some ==> first_product(specs)
            == specs[i].add_mat_mul,
    decreases i,
{
    if i > 0 {
        let rest = specs.drop_first();
        assert forall|j: int| 0 <= j < rest.len() && j < i - 1 implies (
        #[trigger] rest[j]).add_mat_mul is None by {
            assert(rest[j] == specs[j + 1]);
        }
        lemma_first_product(rest, i - 1);
        assert(specs[0].add_mat_mul is None);
        if i < specs.len() {
            assert(rest[i - 1] == specs[i]);
        }
    }
}

/// The last step with a preference decides which order the tiles are run in; without
/// one, rows are outside.
pub proof fn law_last_preference_decides(specs: Seq<FusedSpec>, i: int)
    requires
        -1 <= i < specs.len(),
        forall|j: int| i < j < specs.len() ==> (#[trigger] specs[j]).prefer_col_outer is None,
    ensures
        i == -1 ==> !prefers_col_outer(specs),
        i >= 0 && specs[i].prefer_col_outer is Some ==> prefers_col_outer(specs)
            == specs[i].prefer_col_outer->0,
    decreases specs.len(),
{
    if specs.len() > 0 && i < specs.len() - 1 {
        let rest = specs.drop_last();
        assert forall|j: int| i < j < rest.len() implies (
        #[trigger] rest[j]).prefer_col_outer is None by {
            assert(rest[j] == specs[j]);
        }
        law_last_preference_decides(rest, i);
        assert(specs[specs.len() - 1].prefer_col_outer is None);
        if i >= 0 {
            assert(rest[i] == specs[i]);
        }
    }
}

/// The first time it is read, the budget is the number that the setting holds where that
/// is above 0, and half a mebibyte otherwise.
pub proof fn law_budget_comes_from_the_setting(setting: Option<Seq<char>>)
    ensures
        setting is None ==> budget_read(0, setting) == 512 * 1024,
        setting matches Some(s) ==> {
            &&& parsed(s) is None ==> budget_read(0, setting) == 512 * 1024
            &&& parsed(s) == Some(0usize) ==> budget_read(0, setting) == 512 * 1024
            &&& parsed(s) matches Some(v) ==> v > 0 ==> budget_read(0, setting) == v
        },
        forall|stored: usize| stored > 0 ==> #[trigger] budget_read(stored, setting) == stored,
{
}

/// Qualities are ranked from assembly written by hand down to emulation.
pub proof fn law_qualities_are_ranked()
    ensures
        ImplementationQuality::ranking().len() == 5,
        ImplementationQuality::ManuallyOptimized.place() == 0,
        ImplementationQuality::TargetOptimized.place() == 1,
        ImplementationQuality::RustOptimized.place() == 2,
        ImplementationQuality::Generic.place() == 3,
        ImplementationQuality::Dreadful.place() == 4,
        forall|q: ImplementationQuality|
            0 <= #[trigger] q.place() < 5 && ImplementationQuality::ranking()[q.place()] == q,
{
}

} // verus!
