use vstd::prelude::*;

use crate::config::{ArraySortingMode, CompareMode, Config, FloatCompareMode, NumericMode};
use crate::copy::duplicate_value;
use crate::path::{KeyRef, KeyView, Path, PathRef};
use crate::value::{float_bits_eq, is_nan_bits, same_value, Json, Number};

verus! {

/// The mathematical form of a difference record.
pub struct DiffView {
    pub path: Seq<KeyView>,
    /// The record's path is the root path itself.
    pub root: bool,
    pub lhs: Option<Json>,
    pub rhs: Option<Json>,
    pub config: Config,
}

/// A margin test for floats: callable on every input, with one answer for
/// each, and accepting any float that is not NaN as equal to itself. It is
/// handed the two floats and the epsilon as bit patterns.
pub open spec fn is_margin_test<F: Fn(u64, u64, u64) -> bool>(approx: F) -> bool {
    &&& forall|a: u64, b: u64, e: u64| #[trigger] approx.requires((a, b, e))
    &&& forall|a: u64, e: u64, x: bool|
        !is_nan_bits(a) && #[trigger] approx.ensures((a, a, e), x) ==> x
    &&& forall|a: u64, b: u64, e: u64, x: bool, y: bool|
        #[trigger] approx.ensures((a, b, e), x) && #[trigger] approx.ensures((a, b, e), y) ==> x
            == y
    &&& forall|a: u64, b: u64, e: u64, x: bool, y: bool|
        #[trigger] approx.ensures((a, b, e), x) && #[trigger] approx.ensures((b, a, e), y) ==> x
            == y
}

/// The margin relation that a margin test decides: the answers it may give
/// are all yes.
pub open spec fn margin_of<F: Fn(u64, u64, u64) -> bool>(f: F) -> spec_fn(u64, u64, u64) -> bool {
    |a: u64, b: u64, e: u64| forall|x: bool| #[trigger] f.ensures((a, b, e), x) ==> x
}

/// A margin relation that holds between every float that is not NaN and
/// itself.
pub open spec fn margin_reflexive(m: spec_fn(u64, u64, u64) -> bool) -> bool {
    forall|a: u64, e: u64| !is_nan_bits(a) ==> #[trigger] m(a, a, e)
}

/// Every margin test decides a reflexive margin relation.
pub proof fn margin_test_reflexive<F: Fn(u64, u64, u64) -> bool>(f: F)
    requires
        is_margin_test(f),
    ensures
        margin_reflexive(margin_of(f)),
{
}

/// Float equality under the configured float mode.
pub open spec fn floats_eq(c: Config, a: u64, b: u64, approx: spec_fn(u64, u64, u64) -> bool) -> bool {
    match c.float_compare_mode {
        FloatCompareMode::Exact => float_bits_eq(a, b),
        FloatCompareMode::Epsilon(e) => approx(a, b, e),
    }
}

/// Whether the number `n` on the left equals the value `r` on the right.
pub open spec fn number_matches(
    c: Config,
    n: Number,
    r: Json,
    approx: spec_fn(u64, u64, u64) -> bool,
) -> bool {
    match r {
        Json::Number(m) => match c.numeric_mode {
            NumericMode::Strict => if n is Float && m is Float {
                floats_eq(c, n.float_view(), m.float_view(), approx)
            } else {
                n.repr_eq(&m)
            },
            NumericMode::AssumeFloat => floats_eq(c, n.float_view(), m.float_view(), approx),
        },
        _ => false,
    }
}

/// The record of a difference at `path`.
pub open spec fn record(path: Seq<KeyView>, lhs: Option<Json>, rhs: Option<Json>, c: Config) -> DiffView {
    DiffView { path, root: path.len() == 0, lhs, rhs, config: c }
}

/// A single record of a mismatch of the two whole values at `path`.
pub open spec fn mismatch(path: Seq<KeyView>, l: Json, r: Json, c: Config) -> Seq<DiffView> {
    seq![record(path, Some(l), Some(r), c)]
}

/// The index of the first member of `o` at or after `i` whose key is `k`, or
/// -1 where there is none.
pub open spec fn field_index_from(o: Seq<(String, Json)>, k: Seq<char>, i: int) -> int
    decreases o.len() - i,
{
    if i < 0 || i >= o.len() {
        -1
    } else if o[i].0@ == k {
        i
    } else {
        field_index_from(o, k, i + 1)
    }
}

/// The index of the member of `o` that the key `k` looks up, or -1.
pub open spec fn field_index(o: Seq<(String, Json)>, k: Seq<char>) -> int {
    field_index_from(o, k, 0)
}

/// The records of comparing the left value `l` with the right value `r` at
/// `path`, in traversal order.
pub open spec fn diff_at(
    l: Json,
    r: Json,
    c: Config,
    path: Seq<KeyView>,
    approx: spec_fn(u64, u64, u64) -> bool,
) -> Seq<DiffView>
    decreases r, 2nat, 0int,
{
    match l {
        Json::Number(n) => if number_matches(c, n, r, approx) {
            Seq::empty()
        } else {
            mismatch(path, l, r, c)
        },
        Json::Array(la) => if c.array_sorting_mode == ArraySortingMode::Ignore {
            match r {
                Json::Array(ra) => if (c.compare_mode == CompareMode::Strict && la@.len() != ra@.len())
                    || shortfall_from(la@, r, c, approx, 0) {
                    mismatch(path, l, r, c)
                } else {
                    Seq::empty()
                },
                _ => mismatch(path, l, r, c),
            }
        } else {
            match r {
                Json::Array(ra) => match c.compare_mode {
                    CompareMode::Inclusive => array_inclusive(la@, r, c, path, approx, ra.len() as nat),
                    CompareMode::Strict => array_strict(
                        la@,
                        r,
                        c,
                        path,
                        approx,
                        if la.len() < ra.len() {
                            ra.len() as nat
                        } else {
                            la.len() as nat
                        },
                    ),
                },
                _ => mismatch(path, l, r, c),
            }
        },
        Json::Object(lo) => match r {
            Json::Object(ro) => match c.compare_mode {
                CompareMode::Inclusive => object_inclusive(lo@, r, c, path, approx, ro.len() as nat),
                CompareMode::Strict => object_strict(lo@, r, c, path, approx, ro.len() as nat)
                    + object_lhs_only(lo@, ro@, c, path, lo.len() as nat),
            },
            _ => mismatch(path, l, r, c),
        },
        _ => if l.scalar_eq(&r) {
            Seq::empty()
        } else {
            mismatch(path, l, r, c)
        },
    }
}

/// The length of `r` where it is an array.
pub open spec fn array_len(r: Json) -> int {
    match r {
        Json::Array(ra) => ra@.len() as int,
        _ => 0,
    }
}

/// Some element of the right array `r` at index `k` or later is matched by
/// fewer of the left elements `la` than by the right elements.
pub open spec fn shortfall_from(
    la: Seq<Json>,
    r: Json,
    c: Config,
    approx: spec_fn(u64, u64, u64) -> bool,
    k: int,
) -> bool
    decreases r, 1nat, array_len(r) - k,
{
    match r {
        Json::Array(ra) => if k < 0 || k >= ra@.len() {
            false
        } else {
            have_count(la, r, c, approx, k, la.len() as nat) < need_count(r, c, approx, k, ra@.len() as nat)
                || shortfall_from(la, r, c, approx, k + 1)
        },
        _ => false,
    }
}

/// How many of the first `n` elements of the right array `r` compare equal to
/// its element `k` when `k` is taken as the left side.
pub open spec fn need_count(
    r: Json,
    c: Config,
    approx: spec_fn(u64, u64, u64) -> bool,
    k: int,
    n: nat,
) -> nat
    decreases r, 0nat, n as int,
{
    match r {
        Json::Array(ra) => if n == 0 || n > ra.len() || k < 0 || k >= ra.len() {
            0
        } else {
            need_count(r, c, approx, k, (n - 1) as nat) + if diff_at(
                ra@[k],
                ra@[n - 1],
                c,
                Seq::empty(),
                approx,
            ).len() == 0 {
                1nat
            } else {
                0nat
            }
        },
        _ => 0,
    }
}

/// How many of the first `n` elements of the left array `la` compare equal to
/// the element `k` of the right array `r`.
pub open spec fn have_count(
    la: Seq<Json>,
    r: Json,
    c: Config,
    approx: spec_fn(u64, u64, u64) -> bool,
    k: int,
    n: nat,
) -> nat
    decreases r, 0nat, n as int,
{
    match r {
        Json::Array(ra) => if n == 0 || n > la.len() || k < 0 || k >= ra.len() {
            0
        } else {
            have_count(la, r, c, approx, k, (n - 1) as nat) + if diff_at(
                la[n - 1],
                ra@[k],
                c,
                Seq::empty(),
                approx,
            ).len() == 0 {
                1nat
            } else {
                0nat
            }
        },
        _ => 0,
    }
}

/// Records for the first `n` indices of the right array `r`, compared in
/// inclusive mode against the left elements `la`.
pub open spec fn array_inclusive(
    la: Seq<Json>,
    r: Json,
    c: Config,
    path: Seq<KeyView>,
    approx: spec_fn(u64, u64, u64) -> bool,
    n: nat,
) -> Seq<DiffView>
    decreases r, 0nat, n as int,
{
    match r {
        Json::Array(ra) => if n == 0 || n > ra.len() {
            Seq::empty()
        } else {
            let i = n - 1;
            let at = path.push(KeyView::Idx(i as usize));
            array_inclusive(la, r, c, path, approx, (n - 1) as nat) + if i < la.len() {
                diff_at(la[i], ra@[i], c, at, approx)
            } else {
                seq![record(at, None, Some(r), c)]
            }
        },
        _ => Seq::empty(),
    }
}

/// Records for the first `n` indices of either array, compared in strict mode.
pub open spec fn array_strict(
    la: Seq<Json>,
    r: Json,
    c: Config,
    path: Seq<KeyView>,
    approx: spec_fn(u64, u64, u64) -> bool,
    n: nat,
) -> Seq<DiffView>
    decreases r, 0nat, n as int,
{
    match r {
        Json::Array(ra) => if n == 0 || (n > ra.len() && n > la.len()) {
            Seq::empty()
        } else {
            let i = n - 1;
            let at = path.push(KeyView::Idx(i as usize));
            array_strict(la, r, c, path, approx, (n - 1) as nat) + if i < la.len() && i < ra.len() {
                diff_at(la[i], ra@[i], c, at, approx)
            } else if i < ra.len() {
                seq![record(at, None, Some(ra@[i]), c)]
            } else {
                seq![record(at, Some(la[i]), None, c)]
            }
        },
        _ => Seq::empty(),
    }
}

/// Records for the first `n` members of the right object `r`, compared in
/// inclusive mode against the left members `lo`.
pub open spec fn object_inclusive(
    lo: Seq<(String, Json)>,
    r: Json,
    c: Config,
    path: Seq<KeyView>,
    approx: spec_fn(u64, u64, u64) -> bool,
    n: nat,
) -> Seq<DiffView>
    decreases r, 0nat, n as int,
{
    match r {
        Json::Object(ro) => if n == 0 || n > ro.len() {
            Seq::empty()
        } else {
            let j = n - 1;
            let key = ro@[j].0@;
            let at = path.push(KeyView::Field(key));
            let i = field_index(lo, key);
            object_inclusive(lo, r, c, path, approx, (n - 1) as nat) + if i >= 0 {
                diff_at(lo[i].1, ro@[j].1, c, at, approx)
            } else {
                seq![record(at, None, Some(r), c)]
            }
        },
        _ => Seq::empty(),
    }
}

/// Records for the first `n` members of the right object `r`, compared in
/// strict mode against the left members `lo`.
pub open spec fn object_strict(
    lo: Seq<(String, Json)>,
    r: Json,
    c: Config,
    path: Seq<KeyView>,
    approx: spec_fn(u64, u64, u64) -> bool,
    n: nat,
) -> Seq<DiffView>
    decreases r, 0nat, n as int,
{
    match r {
        Json::Object(ro) => if n == 0 || n > ro.len() {
            Seq::empty()
        } else {
            let j = n - 1;
            let key = ro@[j].0@;
            let at = path.push(KeyView::Field(key));
            let i = field_index(lo, key);
            object_strict(lo, r, c, path, approx, (n - 1) as nat) + if i >= 0 {
                diff_at(lo[i].1, ro@[j].1, c, at, approx)
            } else {
                seq![record(at, None, Some(ro@[j].1), c)]
            }
        },
        _ => Seq::empty(),
    }
}

/// Records for those of the first `n` left members `lo` whose key the right
/// members `ro` lack.
pub open spec fn object_lhs_only(
    lo: Seq<(String, Json)>,
    ro: Seq<(String, Json)>,
    c: Config,
    path: Seq<KeyView>,
    n: nat,
) -> Seq<DiffView>
    decreases n,
{
    if n == 0 || n > lo.len() {
        Seq::empty()
    } else {
        let i = n - 1;
        let key = lo[i].0@;
        object_lhs_only(lo, ro, c, path, (n - 1) as nat) + if field_index(ro, key) < 0 {
            seq![record(path.push(KeyView::Field(key)), Some(lo[i].1), None, c)]
        } else {
            Seq::empty()
        }
    }
}

/// The records of comparing `l` with `r` from the root.
pub open spec fn diff_spec(l: Json, r: Json, c: Config, approx: spec_fn(u64, u64, u64) -> bool) -> Seq<DiffView> {
    diff_at(l, r, c, Seq::empty(), approx)
}

/// A difference between two values: where it is, the two values that
/// disagree there (one of them absent where a key or index is missing on that
/// side), and the configuration that found it.
#[derive(Debug, PartialEq)]
pub struct DifferenceRef<'a> {
    pub path: PathRef<'a>,
    pub lhs: Option<&'a Json>,
    pub rhs: Option<&'a Json>,
    pub config: Config,
}

/// The value an optional reference points to.
pub open spec fn opt_value<'a>(v: Option<&'a Json>) -> Option<Json> {
    match v {
        Some(x) => Some(*x),
        None => None,
    }
}

impl<'a> View for DifferenceRef<'a> {
    type V = DiffView;

    open spec fn view(&self) -> DiffView {
        DiffView {
            path: self.path@,
            root: self.path is Root,
            lhs: opt_value(self.lhs),
            rhs: opt_value(self.rhs),
            config: self.config,
        }
    }
}

/// The path is the root exactly when it has no keys.
pub open spec fn root_consistent<'a>(p: PathRef<'a>) -> bool {
    (p is Root) <==> p@.len() == 0
}

/// The mathematical form of a list of records.
pub open spec fn views<'a>(s: Seq<DifferenceRef<'a>>) -> Seq<DiffView> {
    s.map_values(|d: DifferenceRef<'a>| d@)
}

proof fn lemma_views_push<'a>(s: Seq<DifferenceRef<'a>>, d: DifferenceRef<'a>)
    ensures
        views(s.push(d)) =~= views(s).push(d@),
{
}

fn push_record<'a>(
    acc: &mut Vec<DifferenceRef<'a>>,
    path: PathRef<'a>,
    lhs: Option<&'a Json>,
    rhs: Option<&'a Json>,
    config: Config,
)
    requires
        root_consistent(path),
    ensures
        views(final(acc)@) =~= views(old(acc)@) + seq![
            record(path@, opt_value(lhs), opt_value(rhs), config),
        ],
{
    let d = DifferenceRef { path, lhs, rhs, config };
    proof {
        lemma_views_push(acc@, d);
    }
    acc.push(d);
}

fn floats_equal<F: Fn(u64, u64, u64) -> bool>(c: &Config, a: u64, b: u64, approx: &F) -> (r: bool)
    requires
        is_margin_test(*approx),
    ensures
        r == floats_eq(*c, a, b, margin_of(*approx)),
{
    match c.float_compare_mode {
        FloatCompareMode::Exact => crate::value::float_bits_equal(a, b),
        FloatCompareMode::Epsilon(e) => {
            let r = approx(a, b, e);
            proof {
                assert forall|x: bool| #[trigger] approx.ensures((a, b, e), x) implies x == r by {}
            }
            r
        },
    }
}

fn number_equal<F: Fn(u64, u64, u64) -> bool>(c: &Config, n: &Number, r: &Json, approx: &F) -> (res: bool)
    requires
        is_margin_test(*approx),
    ensures
        res == number_matches(*c, *n, *r, margin_of(*approx)),
{
    match r {
        Json::Number(m) => match c.numeric_mode {
            NumericMode::Strict => if n.is_float() && m.is_float() {
                floats_equal(c, n.as_float(), m.as_float(), approx)
            } else {
                n.repr_equal(m)
            },
            NumericMode::AssumeFloat => floats_equal(c, n.as_float(), m.as_float(), approx),
        },
        _ => false,
    }
}

fn field_position(o: &Vec<(String, Json)>, k: &String) -> (r: Option<usize>)
    ensures
        match r {
            Some(i) => i as int == field_index(o@, k@) && i < o@.len(),
            None => field_index(o@, k@) == -1,
        },
{
    let mut i: usize = 0;
    while i < o.len()
        invariant
            i <= o@.len(),
            field_index(o@, k@) == field_index_from(o@, k@, i as int),
        decreases o.len() - i,
    {
        if o[i].0 == *k {
            return Some(i);
        }
        i = i + 1;
    }
    None
}

/// Compares `lhs` with `rhs` under `config` and returns the differences, in
/// the order of a left-to-right, depth-first walk. `approx` is the margin test
/// that decides float equality in epsilon mode.
pub fn diff<'a, F: Fn(u64, u64, u64) -> bool>(
    lhs: &'a Json,
    rhs: &'a Json,
    config: &Config,
    approx: &F,
) -> (r: Vec<DifferenceRef<'a>>)
    requires
        is_margin_test(*approx),
    ensures
        views(r@) == diff_spec(*lhs, *rhs, *config, margin_of(*approx)),
    decreases *rhs, 3nat,
{
    let mut acc: Vec<DifferenceRef<'a>> = Vec::new();
    proof {
        assert(views(acc@) =~= Seq::<DiffView>::empty());
    }
    diff_with(lhs, rhs, config, &PathRef::Root, &mut acc, approx);
    proof {
        assert(views(acc@) =~= diff_spec(*lhs, *rhs, *config, margin_of(*approx)));
    }
    acc
}

fn diff_with<'a, F: Fn(u64, u64, u64) -> bool>(
    lhs: &'a Json,
    rhs: &'a Json,
    config: &Config,
    path: &PathRef<'a>,
    acc: &mut Vec<DifferenceRef<'a>>,
    approx: &F,
)
    requires
        is_margin_test(*approx),
        root_consistent(*path),
    ensures
        views(final(acc)@) =~= views(old(acc)@) + diff_at(*lhs, *rhs, *config, path@, margin_of(*approx)),
    decreases *rhs, 2nat,
{
    match lhs {
        Json::Number(n) => {
            if !number_equal(config, n, rhs, approx) {
                push_record(acc, path.duplicate(), Some(lhs), Some(rhs), *config);
            } else {
                assert(views(acc@) =~= views(acc@) + Seq::<DiffView>::empty());
            }
        },
        Json::Array(la) => {
            if config.array_sorting_mode == ArraySortingMode::Ignore {
                on_array_contains(lhs, la, rhs, config, path, acc, approx);
            } else {
                on_array(lhs, la, rhs, config, path, acc, approx);
            }
        },
        Json::Object(lo) => {
            on_object(lhs, lo, rhs, config, path, acc, approx);
        },
        _ => {
            if !lhs.scalar_equal(rhs) {
                push_record(acc, path.duplicate(), Some(lhs), Some(rhs), *config);
            } else {
                assert(views(acc@) =~= views(acc@) + Seq::<DiffView>::empty());
            }
        },
    }
}

proof fn lemma_concat_assoc(a: Seq<DiffView>, b: Seq<DiffView>, c: Seq<DiffView>)
    ensures
        (a + b) + c =~= a + (b + c),
{
}

fn on_array<'a, F: Fn(u64, u64, u64) -> bool>(
    lhs: &'a Json,
    la: &'a Vec<Json>,
    rhs: &'a Json,
    config: &Config,
    path: &PathRef<'a>,
    acc: &mut Vec<DifferenceRef<'a>>,
    approx: &F,
)
    requires
        is_margin_test(*approx),
        root_consistent(*path),
        *lhs == Json::Array(*la),
        config.array_sorting_mode != ArraySortingMode::Ignore,
    ensures
        views(final(acc)@) =~= views(old(acc)@) + diff_at(*lhs, *rhs, *config, path@, margin_of(*approx)),
    decreases *rhs, 1nat,
{
    let ghost acc0 = views(acc@);
    match rhs {
        Json::Array(ra) => match config.compare_mode {
            CompareMode::Inclusive => {
                let mut i: usize = 0;
                assert(views(acc@) =~= acc0 + Seq::<DiffView>::empty());
                while i < ra.len()
                    invariant
                        i <= ra@.len(),
                        is_margin_test(*approx),
                        *rhs == Json::Array(*ra),
                        views(acc@) =~= acc0 + array_inclusive(la@, *rhs, *config, path@, margin_of(*approx), i as nat),
                    decreases ra.len() - i,
                {
                    let at = path.append(KeyRef::Idx(i));
                    let ghost before = views(acc@);
                    let ghost prev = array_inclusive(la@, *rhs, *config, path@, margin_of(*approx), i as nat);
                    if i < la.len() {
                        diff_with(&la[i], &ra[i], config, &at, acc, approx);
                    } else {
                        push_record(acc, at, None, Some(rhs), *config);
                    }
                    proof {
                        let piece = views(acc@).subrange(before.len() as int, views(acc@).len() as int);
                        assert(views(acc@) =~= before + piece);
                        lemma_concat_assoc(acc0, prev, piece);
                    }
                    i = i + 1;
                }
            },
            CompareMode::Strict => {
                let n: usize = if la.len() < ra.len() {
                    ra.len()
                } else {
                    la.len()
                };
                let mut i: usize = 0;
                assert(views(acc@) =~= acc0 + Seq::<DiffView>::empty());
                while i < n
                    invariant
                        i <= n,
                        n == if la@.len() < ra@.len() {
                            ra@.len()
                        } else {
                            la@.len()
                        },
                        is_margin_test(*approx),
                        *rhs == Json::Array(*ra),
                        views(acc@) =~= acc0 + array_strict(la@, *rhs, *config, path@, margin_of(*approx), i as nat),
                    decreases n - i,
                {
                    let at = path.append(KeyRef::Idx(i));
                    let ghost before = views(acc@);
                    let ghost prev = array_strict(la@, *rhs, *config, path@, margin_of(*approx), i as nat);
                    if i < la.len() && i < ra.len() {
                        diff_with(&la[i], &ra[i], config, &at, acc, approx);
                    } else if i < ra.len() {
                        push_record(acc, at, None, Some(&ra[i]), *config);
                    } else {
                        push_record(acc, at, Some(&la[i]), None, *config);
                    }
                    proof {
                        let piece = views(acc@).subrange(before.len() as int, views(acc@).len() as int);
                        assert(views(acc@) =~= before + piece);
                        lemma_concat_assoc(acc0, prev, piece);
                    }
                    i = i + 1;
                }
            },
        },
        _ => {
            push_record(acc, path.duplicate(), Some(lhs), Some(rhs), *config);
        },
    }
}

fn on_object<'a, F: Fn(u64, u64, u64) -> bool>(
    lhs: &'a Json,
    lo: &'a Vec<(String, Json)>,
    rhs: &'a Json,
    config: &Config,
    path: &PathRef<'a>,
    acc: &mut Vec<DifferenceRef<'a>>,
    approx: &F,
)
    requires
        is_margin_test(*approx),
        root_consistent(*path),
        *lhs == Json::Object(*lo),
    ensures
        views(final(acc)@) =~= views(old(acc)@) + diff_at(*lhs, *rhs, *config, path@, margin_of(*approx)),
    decreases *rhs, 1nat,
{
    let ghost acc0 = views(acc@);
    match rhs {
        Json::Object(ro) => {
            let mut j: usize = 0;
            assert(views(acc@) =~= acc0 + Seq::<DiffView>::empty());
            while j < ro.len()
                invariant
                    j <= ro@.len(),
                    is_margin_test(*approx),
                    *rhs == Json::Object(*ro),
                    views(acc@) =~= acc0 + if config.compare_mode == CompareMode::Inclusive {
                        object_inclusive(lo@, *rhs, *config, path@, margin_of(*approx), j as nat)
                    } else {
                        object_strict(lo@, *rhs, *config, path@, margin_of(*approx), j as nat)
                    },
                decreases ro.len() - j,
            {
                let key = &ro[j].0;
                let at = path.append(KeyRef::Field(key.as_str()));
                let ghost before = views(acc@);
                let ghost prev = if config.compare_mode == CompareMode::Inclusive {
                    object_inclusive(lo@, *rhs, *config, path@, margin_of(*approx), j as nat)
                } else {
                    object_strict(lo@, *rhs, *config, path@, margin_of(*approx), j as nat)
                };
                match field_position(lo, key) {
                    Some(i) => {
                        diff_with(&lo[i].1, &ro[j].1, config, &at, acc, approx);
                    },
                    None => {
                        if config.compare_mode == CompareMode::Inclusive {
                            push_record(acc, at, None, Some(rhs), *config);
                        } else {
                            push_record(acc, at, None, Some(&ro[j].1), *config);
                        }
                    },
                }
                proof {
                    let piece = views(acc@).subrange(before.len() as int, views(acc@).len() as int);
                    assert(views(acc@) =~= before + piece);
                    lemma_concat_assoc(acc0, prev, piece);
                }
                j = j + 1;
            }
            if config.compare_mode == CompareMode::Strict {
                let ghost mid = views(acc@);
                let mut i: usize = 0;
                assert(views(acc@) =~= mid + Seq::<DiffView>::empty());
                while i < lo.len()
                    invariant
                        i <= lo@.len(),
                        views(acc@) =~= mid + object_lhs_only(lo@, ro@, *config, path@, i as nat),
                    decreases lo.len() - i,
                {
                    let ghost before = views(acc@);
                    let ghost prev = object_lhs_only(lo@, ro@, *config, path@, i as nat);
                    if field_position(ro, &lo[i].0).is_none() {
                        let at = path.append(KeyRef::Field(lo[i].0.as_str()));
                        push_record(acc, at, Some(&lo[i].1), None, *config);
                    }
                    proof {
                        let piece = views(acc@).subrange(before.len() as int, views(acc@).len() as int);
                        assert(views(acc@) =~= before + piece);
                        lemma_concat_assoc(mid, prev, piece);
                    }
                    i = i + 1;
                }
                proof {
                    lemma_concat_assoc(
                        acc0,
                        object_strict(lo@, *rhs, *config, path@, margin_of(*approx), ro@.len() as nat),
                        object_lhs_only(lo@, ro@, *config, path@, lo@.len() as nat),
                    );
                }
            }
        },
        _ => {
            push_record(acc, path.duplicate(), Some(lhs), Some(rhs), *config);
        },
    }
}

/// Order-ignoring comparison: every element of the right array, counted with
/// its multiplicity among the right elements, must be matched at least as
/// often among the left elements; in strict mode the lengths must also agree.
/// Any violation gives one record for the whole array.
fn on_array_contains<'a, F: Fn(u64, u64, u64) -> bool>(
    lhs: &'a Json,
    la: &'a Vec<Json>,
    rhs: &'a Json,
    config: &Config,
    path: &PathRef<'a>,
    acc: &mut Vec<DifferenceRef<'a>>,
    approx: &F,
)
    requires
        is_margin_test(*approx),
        root_consistent(*path),
        *lhs == Json::Array(*la),
        config.array_sorting_mode == ArraySortingMode::Ignore,
    ensures
        views(final(acc)@) =~= views(old(acc)@) + diff_at(*lhs, *rhs, *config, path@, margin_of(*approx)),
    decreases *rhs, 1nat,
{
    match rhs {
        Json::Array(ra) => {
            if config.compare_mode == CompareMode::Strict && la.len() != ra.len() {
                push_record(acc, path.duplicate(), Some(lhs), Some(rhs), *config);
                return;
            }
            let mut k: usize = 0;
            while k < ra.len()
                invariant
                    k <= ra@.len(),
                    is_margin_test(*approx),
                    *rhs == Json::Array(*ra),
                    acc@ == old(acc)@,
                    *lhs == Json::Array(*la),
                    config.array_sorting_mode == ArraySortingMode::Ignore,
                    root_consistent(*path),
                    shortfall_from(la@, *rhs, *config, margin_of(*approx), 0) == shortfall_from(
                        la@,
                        *rhs,
                        *config,
                        margin_of(*approx),
                        k as int,
                    ),
                decreases ra.len() - k,
            {
                let mut need: usize = 0;
                let mut j: usize = 0;
                while j < ra.len()
                    invariant
                        j <= ra@.len(),
                        k < ra@.len(),
                        need <= j,
                        is_margin_test(*approx),
                        *rhs == Json::Array(*ra),
                        need as nat == need_count(*rhs, *config, margin_of(*approx), k as int, j as nat),
                    decreases ra.len() - j,
                {
                    let d = diff(&ra[k], &ra[j], config, approx);
                    if d.len() == 0 {
                        need = need + 1;
                    }
                    j = j + 1;
                }
                let mut have: usize = 0;
                let mut i: usize = 0;
                while i < la.len()
                    invariant
                        i <= la@.len(),
                        k < ra@.len(),
                        have <= i,
                        is_margin_test(*approx),
                        *rhs == Json::Array(*ra),
                        have as nat == have_count(la@, *rhs, *config, margin_of(*approx), k as int, i as nat),
                    decreases la.len() - i,
                {
                    let d = diff(&la[i], &ra[k], config, approx);
                    if d.len() == 0 {
                        have = have + 1;
                    }
                    i = i + 1;
                }
                if have < need {
                    assert(shortfall_from(la@, *rhs, *config, margin_of(*approx), k as int));
                    push_record(acc, path.duplicate(), Some(lhs), Some(rhs), *config);
                    return;
                }
                k = k + 1;
            }
            assert(views(acc@) =~= views(old(acc)@) + Seq::<DiffView>::empty());
        },
        _ => {
            push_record(acc, path.duplicate(), Some(lhs), Some(rhs), *config);
        },
    }
}

/// A difference that owns its path and the two values.
#[derive(Debug, PartialEq)]
pub struct Difference {
    pub path: Path,
    pub lhs: Option<Json>,
    pub rhs: Option<Json>,
    pub config: Config,
}

/// The owned value holds the same contents as the borrowed one, and both or
/// neither are present.
pub open spec fn same_option<'a>(owned: Option<Json>, borrowed: Option<&'a Json>) -> bool {
    match (owned, borrowed) {
        (Some(a), Some(b)) => same_value(*b, a),
        (None, None) => true,
        _ => false,
    }
}

fn copy_option<'a>(v: Option<&'a Json>) -> (r: Option<Json>)
    ensures
        same_option(r, v),
{
    match v {
        Some(x) => Some(duplicate_value(x)),
        None => None,
    }
}

impl Difference {
    /// The same difference, with its path and values copied out of the
    /// compared documents.
    pub fn from_ref<'a>(d: &DifferenceRef<'a>) -> (r: Difference)
        ensures
            r.path@ == d.path@,
            (r.path is Root) <==> (d.path is Root),
            same_option(r.lhs, d.lhs),
            same_option(r.rhs, d.rhs),
            r.config == d.config,
    {
        Difference {
            path: d.path.to_path(),
            lhs: copy_option(d.lhs),
            rhs: copy_option(d.rhs),
            config: d.config,
        }
    }
}

} // verus!
