use vstd::prelude::*;

use crate::config::{ArraySortingMode, CompareMode, Config};
use crate::diff::{
    array_inclusive, array_len, array_strict, diff_at, diff_spec, field_index, field_index_from,
    margin_reflexive, object_inclusive, object_lhs_only, object_strict, record, DiffView,
};
use crate::path::KeyView;
use crate::value::{keys_unique, Json};

verus! {

/// Arrays are compared by position.
pub open spec fn positional(c: Config) -> bool {
    c.array_sorting_mode == ArraySortingMode::Exact
}

proof fn lemma_field_index_at(o: Seq<(String, Json)>, j: int, i: int)
    requires
        keys_unique(o),
        0 <= i <= j < o.len(),
    ensures
        field_index_from(o, o[j].0@, i) == j,
    decreases j - i,
{
    if i < j {
        assert(o[i].0@ != o[j].0@);
        lemma_field_index_at(o, j, i + 1);
    }
}

proof fn lemma_diff_reflexive(
    v: Json,
    c: Config,
    path: Seq<KeyView>,
    approx: spec_fn(u64, u64, u64) -> bool,
)
    requires
        v.wf(),
        positional(c),
        margin_reflexive(approx),
    ensures
        diff_at(v, v, c, path, approx) =~= Seq::<DiffView>::empty(),
    decreases v, 2nat, 0int,
{
    match v {
        Json::Array(va) => {
            if c.compare_mode == CompareMode::Inclusive {
                lemma_array_inclusive_reflexive(v, c, path, approx, va@.len() as nat);
            } else {
                lemma_array_strict_reflexive(v, c, path, approx, va@.len() as nat);
            }
        },
        Json::Object(o) => {
            if c.compare_mode == CompareMode::Inclusive {
                lemma_object_inclusive_reflexive(v, c, path, approx, o@.len() as nat);
            } else {
                lemma_object_strict_reflexive(v, c, path, approx, o@.len() as nat);
                lemma_lhs_only_reflexive(o@, c, path, o@.len() as nat);
            }
        },
        _ => {},
    }
}

proof fn lemma_array_inclusive_reflexive(
    v: Json,
    c: Config,
    path: Seq<KeyView>,
    approx: spec_fn(u64, u64, u64) -> bool,
    n: nat,
)
    requires
        v.wf(),
        v is Array,
        n <= array_len(v),
        positional(c),
        margin_reflexive(approx),
    ensures
        array_inclusive(v->Array_0@, v, c, path, approx, n) =~= Seq::<DiffView>::empty(),
    decreases v, 0nat, n as int,
{
    let va = v->Array_0;
    if n > 0 {
        lemma_array_inclusive_reflexive(v, c, path, approx, (n - 1) as nat);
        lemma_diff_reflexive(va@[n - 1], c, path.push(KeyView::Idx((n - 1) as usize)), approx);
    }
}

proof fn lemma_array_strict_reflexive(
    v: Json,
    c: Config,
    path: Seq<KeyView>,
    approx: spec_fn(u64, u64, u64) -> bool,
    n: nat,
)
    requires
        v.wf(),
        v is Array,
        n <= array_len(v),
        positional(c),
        margin_reflexive(approx),
    ensures
        array_strict(v->Array_0@, v, c, path, approx, n) =~= Seq::<DiffView>::empty(),
    decreases v, 0nat, n as int,
{
    let va = v->Array_0;
    if n > 0 {
        lemma_array_strict_reflexive(v, c, path, approx, (n - 1) as nat);
        lemma_diff_reflexive(va@[n - 1], c, path.push(KeyView::Idx((n - 1) as usize)), approx);
    }
}

proof fn lemma_object_inclusive_reflexive(
    v: Json,
    c: Config,
    path: Seq<KeyView>,
    approx: spec_fn(u64, u64, u64) -> bool,
    n: nat,
)
    requires
        v.wf(),
        v is Object,
        n <= v->Object_0@.len(),
        positional(c),
        margin_reflexive(approx),
    ensures
        object_inclusive(v->Object_0@, v, c, path, approx, n) =~= Seq::<DiffView>::empty(),
    decreases v, 0nat, n as int,
{
    let o = v->Object_0;
    if n > 0 {
        let j = n - 1;
        lemma_object_inclusive_reflexive(v, c, path, approx, (n - 1) as nat);
        lemma_field_index_at(o@, j, 0);
        lemma_diff_reflexive(o@[j].1, c, path.push(KeyView::Field(o@[j].0@)), approx);
    }
}

proof fn lemma_object_strict_reflexive(
    v: Json,
    c: Config,
    path: Seq<KeyView>,
    approx: spec_fn(u64, u64, u64) -> bool,
    n: nat,
)
    requires
        v.wf(),
        v is Object,
        n <= v->Object_0@.len(),
        positional(c),
        margin_reflexive(approx),
    ensures
        object_strict(v->Object_0@, v, c, path, approx, n) =~= Seq::<DiffView>::empty(),
    decreases v, 0nat, n as int,
{
    let o = v->Object_0;
    if n > 0 {
        let j = n - 1;
        lemma_object_strict_reflexive(v, c, path, approx, (n - 1) as nat);
        lemma_field_index_at(o@, j, 0);
        lemma_diff_reflexive(o@[j].1, c, path.push(KeyView::Field(o@[j].0@)), approx);
    }
}

proof fn lemma_lhs_only_reflexive(o: Seq<(String, Json)>, c: Config, path: Seq<KeyView>, n: nat)
    requires
        keys_unique(o),
        n <= o.len(),
    ensures
        object_lhs_only(o, o, c, path, n) =~= Seq::<DiffView>::empty(),
    decreases n,
{
    if n > 0 {
        lemma_lhs_only_reflexive(o, c, path, (n - 1) as nat);
        lemma_field_index_at(o, n - 1, 0);
    }
}

/// Every well-formed value is equal to itself, in inclusive and in strict
/// mode alike and under every numeric and float mode, when arrays are
/// compared by position and the float margin holds between each float and
/// itself (as the margin of every margin test does: `margin_test_reflexive`).
pub proof fn reflexive(v: Json, c: Config, approx: spec_fn(u64, u64, u64) -> bool)
    requires
        v.wf(),
        positional(c),
        margin_reflexive(approx),
    ensures
        diff_spec(v, v, c, approx).len() == 0,
{
    lemma_diff_reflexive(v, c, Seq::empty(), approx);
}

/// In inclusive mode an object that holds some of the left object's members,
/// each with an equal value, shows no difference (arrays by position, and a
/// float margin that holds between each float and itself).
pub proof fn inclusive_subset(l: Json, r: Json, c: Config, approx: spec_fn(u64, u64, u64) -> bool)
    requires
        l.wf(),
        r.wf(),
        l is Object,
        r is Object,
        c.compare_mode == CompareMode::Inclusive,
        positional(c),
        margin_reflexive(approx),
        forall|j: int|
            0 <= j < r->Object_0@.len() ==> exists|i: int|
                0 <= i < l->Object_0@.len() && #[trigger] l->Object_0@[i] == #[trigger] r->Object_0@[j],
    ensures
        diff_spec(l, r, c, approx).len() == 0,
{
    lemma_subset_prefix(l, r, c, Seq::empty(), approx, r->Object_0@.len() as nat);
}

proof fn lemma_subset_prefix(
    l: Json,
    r: Json,
    c: Config,
    path: Seq<KeyView>,
    approx: spec_fn(u64, u64, u64) -> bool,
    n: nat,
)
    requires
        l.wf(),
        r.wf(),
        l is Object,
        r is Object,
        n <= r->Object_0@.len(),
        positional(c),
        margin_reflexive(approx),
        forall|j: int|
            0 <= j < r->Object_0@.len() ==> exists|i: int|
                0 <= i < l->Object_0@.len() && #[trigger] l->Object_0@[i] == #[trigger] r->Object_0@[j],
    ensures
        object_inclusive(l->Object_0@, r, c, path, approx, n) =~= Seq::<DiffView>::empty(),
    decreases n,
{
    let lo = l->Object_0@;
    let ro = r->Object_0@;
    if n > 0 {
        let j = n - 1;
        lemma_subset_prefix(l, r, c, path, approx, (n - 1) as nat);
        assert(0 <= j < ro.len());
        let i = choose|i: int| 0 <= i < lo.len() && #[trigger] lo[i] == ro[j];
        lemma_field_index_at(lo, i, 0);
        assert(ro[j].1.wf());
        lemma_diff_reflexive(ro[j].1, c, path.push(KeyView::Field(ro[j].0@)), approx);
    }
}

/// A record that a value at `p` is present only on the right.
pub open spec fn only_right(p: Seq<KeyView>, x: Json, c: Config) -> DiffView {
    DiffView { path: p, root: p.len() == 0, lhs: None, rhs: Some(x), config: c }
}

/// A record that a value at `p` is present only on the left.
pub open spec fn only_left(p: Seq<KeyView>, x: Json, c: Config) -> DiffView {
    DiffView { path: p, root: p.len() == 0, lhs: Some(x), rhs: None, config: c }
}

proof fn lemma_contains_concat(s1: Seq<DiffView>, s2: Seq<DiffView>, e: DiffView)
    ensures
        (s1 + s2).contains(e) <==> s1.contains(e) || s2.contains(e),
{
    if (s1 + s2).contains(e) {
        let i = choose|i: int| 0 <= i < (s1 + s2).len() && (s1 + s2)[i] == e;
        if i >= s1.len() {
            assert(s2[i - s1.len()] == e);
        }
    }
    if s1.contains(e) {
        let i = choose|i: int| 0 <= i < s1.len() && s1[i] == e;
        assert((s1 + s2)[i] == e);
    }
    if s2.contains(e) {
        let i = choose|i: int| 0 <= i < s2.len() && s2[i] == e;
        assert((s1 + s2)[s1.len() + i] == e);
    }
}

proof fn lemma_field_index_found(o: Seq<(String, Json)>, k: Seq<char>, i: int)
    requires
        0 <= i,
    ensures
        field_index_from(o, k, i) >= 0 ==> i <= field_index_from(o, k, i) < o.len() && o[field_index_from(o, k, i)].0@ == k,
        field_index_from(o, k, i) < 0 ==> field_index_from(o, k, i) == -1 && forall|j: int|
            i <= j < o.len() ==> #[trigger] o[j].0@ != k,
    decreases o.len() - i,
{
    if i < o.len() && o[i].0@ != k {
        lemma_field_index_found(o, k, i + 1);
    }
}

/// The piece that index `i` adds to `array_strict`.
pub open spec fn array_piece(
    la: Seq<Json>,
    ra: Seq<Json>,
    c: Config,
    path: Seq<KeyView>,
    approx: spec_fn(u64, u64, u64) -> bool,
    i: int,
) -> Seq<DiffView> {
    let at = path.push(KeyView::Idx(i as usize));
    if i < la.len() && i < ra.len() {
        diff_at(la[i], ra[i], c, at, approx)
    } else if i < ra.len() {
        seq![record(at, None, Some(ra[i]), c)]
    } else {
        seq![record(at, Some(la[i]), None, c)]
    }
}

proof fn lemma_array_strict_contains(
    la: Seq<Json>,
    r: Json,
    c: Config,
    path: Seq<KeyView>,
    approx: spec_fn(u64, u64, u64) -> bool,
    n: nat,
    e: DiffView,
)
    requires
        r is Array,
        n <= la.len() || n <= r->Array_0@.len(),
    ensures
        array_strict(la, r, c, path, approx, n).contains(e) <==> exists|i: int|
            0 <= i < n && #[trigger] array_piece(la, r->Array_0@, c, path, approx, i).contains(e),
    decreases n,
{
    if n > 0 {
        lemma_array_strict_contains(la, r, c, path, approx, (n - 1) as nat, e);
        lemma_contains_concat(
            array_strict(la, r, c, path, approx, (n - 1) as nat),
            array_piece(la, r->Array_0@, c, path, approx, n - 1),
            e,
        );
        if array_piece(la, r->Array_0@, c, path, approx, n - 1).contains(e) {
            assert(0 <= n - 1 < n);
        }
    }
}

/// The piece that the right member `j` adds to `object_strict`.
pub open spec fn object_piece(
    lo: Seq<(String, Json)>,
    ro: Seq<(String, Json)>,
    c: Config,
    path: Seq<KeyView>,
    approx: spec_fn(u64, u64, u64) -> bool,
    j: int,
) -> Seq<DiffView> {
    let key = ro[j].0@;
    let at = path.push(KeyView::Field(key));
    let i = field_index(lo, key);
    if i >= 0 {
        diff_at(lo[i].1, ro[j].1, c, at, approx)
    } else {
        seq![record(at, None, Some(ro[j].1), c)]
    }
}

proof fn lemma_object_strict_contains(
    lo: Seq<(String, Json)>,
    r: Json,
    c: Config,
    path: Seq<KeyView>,
    approx: spec_fn(u64, u64, u64) -> bool,
    n: nat,
    e: DiffView,
)
    requires
        r is Object,
        n <= r->Object_0@.len(),
    ensures
        object_strict(lo, r, c, path, approx, n).contains(e) <==> exists|j: int|
            0 <= j < n && #[trigger] object_piece(lo, r->Object_0@, c, path, approx, j).contains(e),
    decreases n,
{
    if n > 0 {
        lemma_object_strict_contains(lo, r, c, path, approx, (n - 1) as nat, e);
        lemma_contains_concat(
            object_strict(lo, r, c, path, approx, (n - 1) as nat),
            object_piece(lo, r->Object_0@, c, path, approx, n - 1),
            e,
        );
        if object_piece(lo, r->Object_0@, c, path, approx, n - 1).contains(e) {
            assert(0 <= n - 1 < n);
        }
    }
}

/// The piece that the left member `i` adds to `object_lhs_only`.
pub open spec fn lhs_only_piece(
    lo: Seq<(String, Json)>,
    ro: Seq<(String, Json)>,
    c: Config,
    path: Seq<KeyView>,
    i: int,
) -> Seq<DiffView> {
    let key = lo[i].0@;
    if field_index(ro, key) < 0 {
        seq![record(path.push(KeyView::Field(key)), Some(lo[i].1), None, c)]
    } else {
        Seq::empty()
    }
}

proof fn lemma_lhs_only_contains(
    lo: Seq<(String, Json)>,
    ro: Seq<(String, Json)>,
    c: Config,
    path: Seq<KeyView>,
    n: nat,
    e: DiffView,
)
    requires
        n <= lo.len(),
    ensures
        object_lhs_only(lo, ro, c, path, n).contains(e) <==> exists|i: int|
            0 <= i < n && #[trigger] lhs_only_piece(lo, ro, c, path, i).contains(e),
    decreases n,
{
    if n > 0 {
        lemma_lhs_only_contains(lo, ro, c, path, (n - 1) as nat, e);
        lemma_contains_concat(
            object_lhs_only(lo, ro, c, path, (n - 1) as nat),
            lhs_only_piece(lo, ro, c, path, n - 1),
            e,
        );
        if lhs_only_piece(lo, ro, c, path, n - 1).contains(e) {
            assert(0 <= n - 1 < n);
        }
    }
}

proof fn lemma_singleton_contains(d: DiffView, e: DiffView)
    ensures
        seq![d].contains(e) <==> d == e,
{
    if d == e {
        assert(seq![d][0] == e);
    }
}

proof fn lemma_one_sided_mirror(
    a: Json,
    b: Json,
    c: Config,
    path: Seq<KeyView>,
    approx: spec_fn(u64, u64, u64) -> bool,
    p: Seq<KeyView>,
    x: Json,
)
    requires
        a.wf(),
        b.wf(),
        c.compare_mode == CompareMode::Strict,
    ensures
        diff_at(a, b, c, path, approx).contains(only_right(p, x, c)) <==> diff_at(b, a, c, path, approx).contains(
            only_left(p, x, c),
        ),
    decreases b,
{
    let el = only_right(p, x, c);
    let er = only_left(p, x, c);
    lemma_singleton_contains(record(path, Some(a), Some(b), c), el);
    lemma_singleton_contains(record(path, Some(b), Some(a), c), er);
    if a is Array && b is Array && c.array_sorting_mode == ArraySortingMode::Exact {
        let la = a->Array_0@;
        let lb = b->Array_0@;
        let n: nat = if la.len() < lb.len() {
            lb.len() as nat
        } else {
            la.len() as nat
        };
        lemma_array_strict_contains(la, b, c, path, approx, n, el);
        lemma_array_strict_contains(lb, a, c, path, approx, n, er);
        assert forall|i: int| 0 <= i < n implies #[trigger] array_piece(la, lb, c, path, approx, i).contains(el)
            == array_piece(lb, la, c, path, approx, i).contains(er) by {
            let at = path.push(KeyView::Idx(i as usize));
            if i < la.len() && i < lb.len() {
                lemma_one_sided_mirror(la[i], lb[i], c, at, approx, p, x);
            } else if i < lb.len() {
                lemma_singleton_contains(record(at, None, Some(lb[i]), c), el);
                lemma_singleton_contains(record(at, Some(lb[i]), None, c), er);
            } else {
                lemma_singleton_contains(record(at, Some(la[i]), None, c), el);
                lemma_singleton_contains(record(at, None, Some(la[i]), c), er);
            }
        }
        if diff_at(a, b, c, path, approx).contains(el) {
            let i = choose|i: int| 0 <= i < n && #[trigger] array_piece(la, lb, c, path, approx, i).contains(el);
            assert(array_piece(lb, la, c, path, approx, i).contains(er));
        }
        if diff_at(b, a, c, path, approx).contains(er) {
            let i = choose|i: int| 0 <= i < n && #[trigger] array_piece(lb, la, c, path, approx, i).contains(er);
            assert(array_piece(la, lb, c, path, approx, i).contains(el));
        }
    } else if a is Object && b is Object {
        let lo = a->Object_0@;
        let ro = b->Object_0@;
        lemma_object_strict_contains(lo, b, c, path, approx, ro.len() as nat, el);
        lemma_object_strict_contains(ro, a, c, path, approx, lo.len() as nat, er);
        lemma_lhs_only_contains(lo, ro, c, path, lo.len() as nat, el);
        lemma_lhs_only_contains(ro, lo, c, path, ro.len() as nat, er);
        lemma_contains_concat(
            object_strict(lo, b, c, path, approx, ro.len() as nat),
            object_lhs_only(lo, ro, c, path, lo.len() as nat),
            el,
        );
        lemma_contains_concat(
            object_strict(ro, a, c, path, approx, lo.len() as nat),
            object_lhs_only(ro, lo, c, path, ro.len() as nat),
            er,
        );
        assert forall|i: int| 0 <= i < lo.len() implies !#[trigger] lhs_only_piece(lo, ro, c, path, i).contains(el) by {
            lemma_singleton_contains(record(path.push(KeyView::Field(lo[i].0@)), Some(lo[i].1), None, c), el);
        }
        if diff_at(a, b, c, path, approx).contains(el) {
            let j = choose|j: int| 0 <= j < ro.len() && #[trigger] object_piece(lo, ro, c, path, approx, j).contains(el);
            let k = ro[j].0@;
            let at = path.push(KeyView::Field(k));
            lemma_field_index_found(lo, k, 0);
            let i = field_index(lo, k);
            if i >= 0 {
                assert(ro[j].1.wf());
                assert(lo[i].1.wf());
                lemma_one_sided_mirror(lo[i].1, ro[j].1, c, at, approx, p, x);
                lemma_field_index_at(ro, j, 0);
                assert(object_piece(ro, lo, c, path, approx, i).contains(er));
            } else {
                lemma_singleton_contains(record(at, None, Some(ro[j].1), c), el);
                lemma_singleton_contains(record(at, Some(ro[j].1), None, c), er);
                assert(lhs_only_piece(ro, lo, c, path, j).contains(er));
            }
        }
        if diff_at(b, a, c, path, approx).contains(er) {
            if object_strict(ro, a, c, path, approx, lo.len() as nat).contains(er) {
                let i = choose|i: int| 0 <= i < lo.len() && #[trigger] object_piece(ro, lo, c, path, approx, i).contains(er);
                let k = lo[i].0@;
                let at = path.push(KeyView::Field(k));
                lemma_field_index_found(ro, k, 0);
                let j = field_index(ro, k);
                if j >= 0 {
                    assert(ro[j].1.wf());
                    assert(lo[i].1.wf());
                    lemma_one_sided_mirror(lo[i].1, ro[j].1, c, at, approx, p, x);
                    lemma_field_index_at(lo, i, 0);
                    assert(object_piece(lo, ro, c, path, approx, j).contains(el));
                } else {
                    lemma_singleton_contains(record(at, None, Some(lo[i].1), c), er);
                }
            } else {
                let j = choose|j: int| 0 <= j < ro.len() && #[trigger] lhs_only_piece(ro, lo, c, path, j).contains(er);
                let k = ro[j].0@;
                let at = path.push(KeyView::Field(k));
                lemma_singleton_contains(record(at, Some(ro[j].1), None, c), er);
                lemma_singleton_contains(record(at, None, Some(ro[j].1), c), el);
                assert(object_piece(lo, ro, c, path, approx, j).contains(el));
            }
        }
    }
}

/// In strict mode a value at a path is missing from the left side of one
/// comparison exactly when it is missing from the right side of the
/// comparison with the two sides swapped.
pub proof fn strict_one_sided_mirror(
    a: Json,
    b: Json,
    c: Config,
    approx: spec_fn(u64, u64, u64) -> bool,
    p: Seq<KeyView>,
    x: Json,
)
    requires
        a.wf(),
        b.wf(),
        c.compare_mode == CompareMode::Strict,
    ensures
        diff_spec(a, b, c, approx).contains(only_right(p, x, c)) <==> diff_spec(b, a, c, approx).contains(
            only_left(p, x, c),
        ),
{
    lemma_one_sided_mirror(a, b, c, Seq::empty(), approx, p, x);
}

/// A record carries the configuration `c`, has a value on at least one side,
/// and in inclusive mode always has the expected (right) value.
pub open spec fn shaped(d: DiffView, c: Config, base: Seq<KeyView>) -> bool {
    &&& extends(d.path, base)
    &&& d.config == c
    &&& (d.lhs is Some || d.rhs is Some)
    &&& (c.compare_mode == CompareMode::Inclusive ==> d.rhs is Some)
}

pub open spec fn all_shaped(s: Seq<DiffView>, c: Config, base: Seq<KeyView>) -> bool {
    forall|i: int| 0 <= i < s.len() ==> #[trigger] shaped(s[i], c, base)
}

/// The path `p` starts with the keys of `base`.
pub open spec fn extends(p: Seq<KeyView>, base: Seq<KeyView>) -> bool {
    base.len() <= p.len() && p.subrange(0, base.len() as int) == base
}

proof fn lemma_extends_push(path: Seq<KeyView>)
    ensures
        extends(path, path),
        forall|k: KeyView| extends(#[trigger] path.push(k), path),
{
    assert(path.subrange(0, path.len() as int) =~= path);
    assert forall|k: KeyView| extends(#[trigger] path.push(k), path) by {
        assert(path.push(k).subrange(0, path.len() as int) =~= path);
    }
}

proof fn lemma_shaped_weaken(s: Seq<DiffView>, c: Config, path: Seq<KeyView>, k: KeyView)
    requires
        all_shaped(s, c, path.push(k)),
    ensures
        all_shaped(s, c, path),
{
    assert forall|i: int| 0 <= i < s.len() implies #[trigger] shaped(s[i], c, path) by {
        assert(shaped(s[i], c, path.push(k)));
        let q = s[i].path;
        assert(q.subrange(0, path.len() as int) =~= q.subrange(0, path.len() + 1 as int).subrange(
            0,
            path.len() as int,
        ));
        assert(path.push(k).subrange(0, path.len() as int) =~= path);
    }
}

proof fn lemma_shaped_concat(a: Seq<DiffView>, b: Seq<DiffView>, c: Config, path: Seq<KeyView>)
    requires
        all_shaped(a, c, path),
        all_shaped(b, c, path),
    ensures
        all_shaped(a + b, c, path),
{
    assert forall|i: int| 0 <= i < (a + b).len() implies #[trigger] shaped((a + b)[i], c, path) by {
        if i < a.len() {
            assert((a + b)[i] == a[i]);
        } else {
            assert((a + b)[i] == b[i - a.len()]);
        }
    }
}

proof fn lemma_diff_shaped(
    l: Json,
    r: Json,
    c: Config,
    path: Seq<KeyView>,
    approx: spec_fn(u64, u64, u64) -> bool,
)
    ensures
        all_shaped(diff_at(l, r, c, path, approx), c, path),
    decreases r, 2nat, 0int,
{
    lemma_extends_push(path);
    let s = diff_at(l, r, c, path, approx);
    match l {
        Json::Array(la) => {
            if c.array_sorting_mode == ArraySortingMode::Exact && r is Array {
                let n = if la@.len() < r->Array_0@.len() {
                    r->Array_0@.len() as nat
                } else {
                    la@.len() as nat
                };
                if c.compare_mode == CompareMode::Inclusive {
                    lemma_array_inclusive_shaped(la@, r, c, path, approx, r->Array_0@.len() as nat);
                } else {
                    lemma_array_strict_shaped(la@, r, c, path, approx, n);
                }
            } else {
                assert(all_shaped(s, c, path));
            }
        },
        Json::Object(lo) => {
            if r is Object {
                let ro = r->Object_0@;
                if c.compare_mode == CompareMode::Inclusive {
                    lemma_object_inclusive_shaped(lo@, r, c, path, approx, ro.len() as nat);
                } else {
                    lemma_object_strict_shaped(lo@, r, c, path, approx, ro.len() as nat);
                    lemma_lhs_only_shaped(lo@, ro, c, path, lo@.len() as nat);
                    lemma_shaped_concat(
                        object_strict(lo@, r, c, path, approx, ro.len() as nat),
                        object_lhs_only(lo@, ro, c, path, lo@.len() as nat),
                        c,
                        path,
                    );
                }
            }
        },
        _ => {},
    }
}

proof fn lemma_array_inclusive_shaped(
    la: Seq<Json>,
    r: Json,
    c: Config,
    path: Seq<KeyView>,
    approx: spec_fn(u64, u64, u64) -> bool,
    n: nat,
)
    ensures
        all_shaped(array_inclusive(la, r, c, path, approx, n), c, path),
    decreases r, 0nat, n as int,
{
    lemma_extends_push(path);
    if r is Array && n > 0 && n <= array_len(r) {
        let i = n - 1;
        let at = path.push(KeyView::Idx(i as usize));
        lemma_array_inclusive_shaped(la, r, c, path, approx, (n - 1) as nat);
        if i < la.len() {
            lemma_diff_shaped(la[i], r->Array_0@[i], c, at, approx);
            lemma_shaped_weaken(diff_at(la[i], r->Array_0@[i], c, at, approx), c, path, KeyView::Idx(i as usize));
        }
        lemma_shaped_concat(
            array_inclusive(la, r, c, path, approx, (n - 1) as nat),
            if i < la.len() {
                diff_at(la[i], r->Array_0@[i], c, at, approx)
            } else {
                seq![record(at, None, Some(r), c)]
            },
            c,
            path,
        );
    }
}

proof fn lemma_array_strict_shaped(
    la: Seq<Json>,
    r: Json,
    c: Config,
    path: Seq<KeyView>,
    approx: spec_fn(u64, u64, u64) -> bool,
    n: nat,
)
    requires
        c.compare_mode == CompareMode::Strict,
    ensures
        all_shaped(array_strict(la, r, c, path, approx, n), c, path),
    decreases r, 0nat, n as int,
{
    lemma_extends_push(path);
    if r is Array && n > 0 && (n <= array_len(r) || n <= la.len()) {
        let ra = r->Array_0@;
        let i = n - 1;
        lemma_array_strict_shaped(la, r, c, path, approx, (n - 1) as nat);
        if i < la.len() && i < ra.len() {
            lemma_diff_shaped(la[i], ra[i], c, path.push(KeyView::Idx(i as usize)), approx);
            lemma_shaped_weaken(
                diff_at(la[i], ra[i], c, path.push(KeyView::Idx(i as usize)), approx),
                c,
                path,
                KeyView::Idx(i as usize),
            );
        }
        lemma_shaped_concat(
            array_strict(la, r, c, path, approx, (n - 1) as nat),
            array_piece(la, ra, c, path, approx, i),
            c,
            path,
        );
    }
}

proof fn lemma_object_inclusive_shaped(
    lo: Seq<(String, Json)>,
    r: Json,
    c: Config,
    path: Seq<KeyView>,
    approx: spec_fn(u64, u64, u64) -> bool,
    n: nat,
)
    ensures
        all_shaped(object_inclusive(lo, r, c, path, approx, n), c, path),
    decreases r, 0nat, n as int,
{
    lemma_extends_push(path);
    if r is Object && n > 0 && n <= r->Object_0@.len() {
        let ro = r->Object_0@;
        let j = n - 1;
        let key = ro[j].0@;
        let at = path.push(KeyView::Field(key));
        let i = field_index(lo, key);
        lemma_object_inclusive_shaped(lo, r, c, path, approx, (n - 1) as nat);
        if i >= 0 {
            lemma_diff_shaped(lo[i].1, ro[j].1, c, at, approx);
            lemma_shaped_weaken(diff_at(lo[i].1, ro[j].1, c, at, approx), c, path, KeyView::Field(key));
        }
        lemma_shaped_concat(
            object_inclusive(lo, r, c, path, approx, (n - 1) as nat),
            if i >= 0 {
                diff_at(lo[i].1, ro[j].1, c, at, approx)
            } else {
                seq![record(at, None, Some(r), c)]
            },
            c,
            path,
        );
    }
}

proof fn lemma_object_strict_shaped(
    lo: Seq<(String, Json)>,
    r: Json,
    c: Config,
    path: Seq<KeyView>,
    approx: spec_fn(u64, u64, u64) -> bool,
    n: nat,
)
    requires
        c.compare_mode == CompareMode::Strict,
    ensures
        all_shaped(object_strict(lo, r, c, path, approx, n), c, path),
    decreases r, 0nat, n as int,
{
    lemma_extends_push(path);
    if r is Object && n > 0 && n <= r->Object_0@.len() {
        let ro = r->Object_0@;
        let j = n - 1;
        let key = ro[j].0@;
        let i = field_index(lo, key);
        lemma_object_strict_shaped(lo, r, c, path, approx, (n - 1) as nat);
        if i >= 0 {
            lemma_diff_shaped(lo[i].1, ro[j].1, c, path.push(KeyView::Field(key)), approx);
            lemma_shaped_weaken(
                diff_at(lo[i].1, ro[j].1, c, path.push(KeyView::Field(key)), approx),
                c,
                path,
                KeyView::Field(key),
            );
        }
        lemma_shaped_concat(
            object_strict(lo, r, c, path, approx, (n - 1) as nat),
            object_piece(lo, ro, c, path, approx, j),
            c,
            path,
        );
    }
}

proof fn lemma_lhs_only_shaped(
    lo: Seq<(String, Json)>,
    ro: Seq<(String, Json)>,
    c: Config,
    path: Seq<KeyView>,
    n: nat,
)
    requires
        c.compare_mode == CompareMode::Strict,
    ensures
        all_shaped(object_lhs_only(lo, ro, c, path, n), c, path),
    decreases n,
{
    lemma_extends_push(path);
    if n > 0 && n <= lo.len() {
        lemma_lhs_only_shaped(lo, ro, c, path, (n - 1) as nat);
        lemma_shaped_concat(
            object_lhs_only(lo, ro, c, path, (n - 1) as nat),
            lhs_only_piece(lo, ro, c, path, n - 1),
            c,
            path,
        );
    }
}

/// Every record of a comparison carries its configuration and a value on at
/// least one side; in inclusive mode the expected side is always present, so
/// a value is never reported missing from the expected side.
pub proof fn records_shaped(l: Json, r: Json, c: Config, approx: spec_fn(u64, u64, u64) -> bool)
    ensures
        all_shaped(diff_spec(l, r, c, approx), c, Seq::empty()),
{
    lemma_diff_shaped(l, r, c, Seq::empty(), approx);
}

/// Every record found below `path` lies at `path` or deeper: its path starts
/// with the keys of `path`.
pub proof fn records_extend_path(
    l: Json,
    r: Json,
    c: Config,
    path: Seq<KeyView>,
    approx: spec_fn(u64, u64, u64) -> bool,
)
    ensures
        forall|i: int|
            0 <= i < diff_at(l, r, c, path, approx).len() ==> extends(
                #[trigger] diff_at(l, r, c, path, approx)[i].path,
                path,
            ),
{
    lemma_diff_shaped(l, r, c, path, approx);
    assert forall|i: int| 0 <= i < diff_at(l, r, c, path, approx).len() implies extends(
        #[trigger] diff_at(l, r, c, path, approx)[i].path,
        path,
    ) by {
        assert(shaped(diff_at(l, r, c, path, approx)[i], c, path));
    }
}

} // verus!
