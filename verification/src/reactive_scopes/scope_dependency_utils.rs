//! Shared utilities for manipulating reactive scope dependencies: comparing
//! property paths, deciding when one dependency makes another redundant, and
//! keeping dependency lists free of redundant entries.

use vstd::prelude::*;
use std::cmp::Ordering;
use crate::hir::types::{DependencyPathEntry, ReactiveScopeDependency};
use crate::hir::model::{
    DependencyModel, dependencies_model, dependency_model, lemma_dependencies_model_index,
    lemma_dependencies_model_len,
};
use crate::hir::copy::{copy_dependency, copy_path_entry};
use crate::fxhash::{fx_map_insert, fx_map_remove};
use rustc_hash::FxHashMap;

verus! {

/// The two paths name the same property at every position both have.
pub open spec fn properties_agree(a: Seq<DependencyPathEntry>, b: Seq<DependencyPathEntry>) -> bool {
    forall|i: int| 0 <= i < a.len() && i < b.len() ==> a[i].property@ == b[i].property@
}

/// How two paths relate: `Equal` when identical in properties, `Less` when
/// `a` is a strict prefix of `b`, `Greater` when `b` is a strict prefix of
/// `a`, and `None` when they diverge.
pub open spec fn path_comparison(a: Seq<DependencyPathEntry>, b: Seq<DependencyPathEntry>) -> Option<
    Ordering,
> {
    if !properties_agree(a, b) {
        None
    } else if a.len() < b.len() {
        Some(Ordering::Less)
    } else if a.len() == b.len() {
        Some(Ordering::Equal)
    } else {
        Some(Ordering::Greater)
    }
}

/// The comparison with the roles of the two sides exchanged.
pub open spec fn flip(o: Option<Ordering>) -> Option<Ordering> {
    match o {
        Some(Ordering::Less) => Some(Ordering::Greater),
        Some(Ordering::Greater) => Some(Ordering::Less),
        other => other,
    }
}

/// Tracking `a` makes tracking `b` redundant: same root identifier, `a`'s
/// path is a prefix of `b`'s, and wherever `a` accesses optionally so does `b`.
pub open spec fn subsumes(a: DependencyModel, b: DependencyModel) -> bool {
    &&& a.identifier.id == b.identifier.id
    &&& a.path.len() <= b.path.len()
    &&& properties_agree(a.path, b.path)
    &&& forall|i: int| 0 <= i < a.path.len() ==> (#[trigger] a.path[i]).optional ==> b.path[i].optional
}

/// Some entry of `s` subsumes `d`.
pub open spec fn covered(s: Seq<DependencyModel>, d: DependencyModel) -> bool {
    exists|i: int| 0 <= i < s.len() && subsumes(#[trigger] s[i], d)
}

/// No entry of `s` subsumes a different entry of `s`.
pub open spec fn is_minimal(s: Seq<DependencyModel>) -> bool {
    forall|i: int, j: int| 0 <= i < s.len() && 0 <= j < s.len() && i != j ==> !subsumes(#[trigger] s[i], #[trigger] s[j])
}

/// The list after adding `d`: unchanged when `d` is already covered,
/// otherwise the entries that `d` subsumes are dropped and `d` is appended.
pub open spec fn add_to_list(s: Seq<DependencyModel>, d: DependencyModel) -> Seq<DependencyModel> {
    if covered(s, d) {
        s
    } else {
        s.filter(|e: DependencyModel| !subsumes(d, e)).push(d)
    }
}

/// Adding every entry of `items`, in order, to `s`.
pub open spec fn add_all(s: Seq<DependencyModel>, items: Seq<DependencyModel>) -> Seq<DependencyModel>
    decreases items.len(),
{
    if items.len() == 0 {
        s
    } else {
        add_to_list(add_all(s, items.drop_last()), items.last())
    }
}

/// Compare two dependency paths to determine if one is a prefix of the other.
pub fn compare_paths(a: &[DependencyPathEntry], b: &[DependencyPathEntry]) -> (r: Option<Ordering>)
    ensures
        r == path_comparison(a@, b@),
{
    let min_len = if a.len() < b.len() {
        a.len()
    } else {
        b.len()
    };
    let mut i: usize = 0;
    while i < min_len
        invariant
            i <= min_len,
            min_len <= a@.len(),
            min_len <= b@.len(),
            min_len == a@.len() || min_len == b@.len(),
            forall|j: int| 0 <= j < i ==> a@[j].property@ == b@[j].property@,
        decreases min_len - i,
    {
        if a[i].property != b[i].property {
            return None;
        }
        i = i + 1;
    }
    if a.len() < b.len() {
        Some(Ordering::Less)
    } else if a.len() == b.len() {
        Some(Ordering::Equal)
    } else {
        Some(Ordering::Greater)
    }
}

/// Check if dependency `a` subsumes `b`, meaning tracking `a` makes `b` redundant.
pub fn dependency_subsumes(a: &ReactiveScopeDependency, b: &ReactiveScopeDependency) -> (r: bool)
    ensures
        r == subsumes(dependency_model(*a), dependency_model(*b)),
{
    if a.identifier.id != b.identifier.id {
        return false;
    }
    match compare_paths(a.path.as_slice(), b.path.as_slice()) {
        Some(Ordering::Less) | Some(Ordering::Equal) => {
            let mut i: usize = 0;
            while i < a.path.len()
                invariant
                    i <= a.path@.len(),
                    a.path@.len() <= b.path@.len(),
                    forall|j: int| 0 <= j < i ==> a.path@[j].optional ==> b.path@[j].optional,
                decreases a.path.len() - i,
            {
                if a.path[i].optional && !b.path[i].optional {
                    return false;
                }
                i = i + 1;
            }
            true
        },
        _ => false,
    }
}

/// Add a dependency to a list, deduplicating and removing subsumed entries.
pub fn add_dependency(deps: &mut Vec<ReactiveScopeDependency>, new_dep: ReactiveScopeDependency)
    ensures
        dependencies_model(final(deps)@) == add_to_list(
            dependencies_model(old(deps)@),
            dependency_model(new_dep),
        ),
{
    let ghost om = dependencies_model(deps@);
    let ghost nm = dependency_model(new_dep);
    proof {
        lemma_dependencies_model_len(deps@);
    }
    let mut i: usize = 0;
    while i < deps.len()
        invariant
            i <= deps@.len(),
            om == dependencies_model(deps@),
            om.len() == deps@.len(),
            nm == dependency_model(new_dep),
            forall|j: int| 0 <= j < i ==> !subsumes(#[trigger] om[j], nm),
        decreases deps.len() - i,
    {
        proof {
            lemma_dependencies_model_index(deps@, i as int);
        }
        if dependency_subsumes(&deps[i], &new_dep) {
            assert(subsumes(om[i as int], nm));
            return;
        }
        i = i + 1;
    }
    assert(!covered(om, nm));
    let ghost pred = |e: DependencyModel| !subsumes(nm, e);
    let mut rest: Vec<ReactiveScopeDependency> = Vec::new();
    std::mem::swap(deps, &mut rest);
    let ghost orig = rest@;
    let ghost mut k: int = 0;
    while rest.len() > 0
        invariant
            0 <= k <= orig.len(),
            rest@ == orig.skip(k),
            om == dependencies_model(orig),
            om.len() == orig.len(),
            nm == dependency_model(new_dep),
            pred == |e: DependencyModel| !subsumes(nm, e),
            dependencies_model(deps@) == om.take(k).filter(pred),
        decreases rest.len(),
    {
        let e = rest.remove(0);
        proof {
            assert(orig.skip(k)[0] == orig[k]);
            lemma_dependencies_model_index(orig, k);
            assert(om.take(k + 1).drop_last() =~= om.take(k));
            assert(om.take(k + 1).last() == om[k]);
            reveal_with_fuel(Seq::filter, 1);
        }
        let keep = !dependency_subsumes(&new_dep, &e);
        let ghost before = deps@;
        if keep {
            deps.push(e);
            proof {
                assert(deps@.drop_last() =~= before);
            }
        }
        proof {
            assert(orig.skip(k + 1) =~= orig.skip(k).drop_first());
            k = k + 1;
        }
    }
    proof {
        assert(om.take(k) =~= om);
    }
    let ghost before = deps@;
    deps.push(new_dep);
    proof {
        assert(deps@.drop_last() =~= before);
    }
}

/// Merge two sets of dependencies, removing redundant entries.
pub fn merge_dependencies(deps_a: &[ReactiveScopeDependency], deps_b: &[ReactiveScopeDependency]) -> (r: Vec<
    ReactiveScopeDependency,
>)
    ensures
        dependencies_model(r@) == add_all(
            Seq::empty(),
            dependencies_model(deps_a@) + dependencies_model(deps_b@),
        ),
{
    let ghost ma = dependencies_model(deps_a@);
    let ghost mb = dependencies_model(deps_b@);
    proof {
        lemma_dependencies_model_len(deps_a@);
        lemma_dependencies_model_len(deps_b@);
    }
    let mut merged: Vec<ReactiveScopeDependency> = Vec::new();
    let mut i: usize = 0;
    while i < deps_a.len()
        invariant
            i <= deps_a@.len(),
            ma == dependencies_model(deps_a@),
            ma.len() == deps_a@.len(),
            dependencies_model(merged@) == add_all(Seq::empty(), ma.take(i as int)),
        decreases deps_a.len() - i,
    {
        proof {
            lemma_dependencies_model_index(deps_a@, i as int);
            assert(ma.take(i + 1).drop_last() =~= ma.take(i as int));
        }
        add_dependency(&mut merged, copy_dependency(&deps_a[i]));
        i = i + 1;
    }
    proof {
        assert(ma.take(i as int) =~= ma);
        assert(ma =~= ma + mb.take(0));
    }
    let mut j: usize = 0;
    while j < deps_b.len()
        invariant
            j <= deps_b@.len(),
            mb == dependencies_model(deps_b@),
            mb.len() == deps_b@.len(),
            dependencies_model(merged@) == add_all(Seq::empty(), ma + mb.take(j as int)),
        decreases deps_b.len() - j,
    {
        proof {
            lemma_dependencies_model_index(deps_b@, j as int);
            assert((ma + mb.take(j + 1)).drop_last() =~= ma + mb.take(j as int));
            assert((ma + mb.take(j + 1)).last() == mb[j as int]);
        }
        add_dependency(&mut merged, copy_dependency(&deps_b[j]));
        j = j + 1;
    }
    proof {
        assert(mb.take(j as int) =~= mb);
    }
    merged
}

/// The index of the last optional entry of `path`, or -1 when there is none.
pub open spec fn last_optional_index(path: Seq<DependencyPathEntry>) -> int
    decreases path.len(),
{
    if path.len() == 0 {
        -1
    } else if path.last().optional {
        path.len() - 1
    } else {
        last_optional_index(path.drop_last())
    }
}

/// The path cut after its last optional access (the whole path when it has none).
pub open spec fn truncated_path(path: Seq<DependencyPathEntry>) -> Seq<DependencyPathEntry> {
    if last_optional_index(path) >= 0 {
        path.take(last_optional_index(path) + 1)
    } else {
        path
    }
}

pub proof fn lemma_last_optional_index(path: Seq<DependencyPathEntry>)
    ensures
        -1 <= last_optional_index(path) < path.len(),
        last_optional_index(path) >= 0 ==> path[last_optional_index(path)].optional,
        forall|j: int| last_optional_index(path) < j < path.len() ==> !(#[trigger] path[j]).optional,
    decreases path.len(),
{
    if path.len() > 0 && !path.last().optional {
        lemma_last_optional_index(path.drop_last());
        assert forall|j: int| last_optional_index(path) < j < path.len() implies !(#[trigger] path[j]).optional by {
            if j < path.len() - 1 {
                assert(path.drop_last()[j] == path[j]);
            }
        }
    }
}

/// Normalize a dependency path by collapsing optional chains: returns the
/// path up to and including its last optional access.
pub fn truncate_at_optional(path: &[DependencyPathEntry]) -> (r: Vec<DependencyPathEntry>)
    ensures
        r@ == truncated_path(path@),
{
    let mut last_optional_idx: Option<usize> = None;
    let mut i: usize = 0;
    while i < path.len()
        invariant
            i <= path@.len(),
            match last_optional_idx {
                Some(idx) => idx < i && last_optional_index(path@.take(i as int)) == idx,
                None => last_optional_index(path@.take(i as int)) == -1,
            },
        decreases path.len() - i,
    {
        proof {
            assert(path@.take(i + 1).drop_last() =~= path@.take(i as int));
            assert(path@.take(i + 1).last() == path@[i as int]);
        }
        if path[i].optional {
            last_optional_idx = Some(i);
        }
        i = i + 1;
    }
    proof {
        assert(path@.take(i as int) =~= path@);
    }
    let end = match last_optional_idx {
        Some(idx) => idx + 1,
        None => path.len(),
    };
    let mut out: Vec<DependencyPathEntry> = Vec::new();
    let mut j: usize = 0;
    while j < end
        invariant
            end <= path@.len(),
            j <= end,
            out@ == path@.take(j as int),
        decreases end - j,
    {
        out.push(copy_path_entry(&path[j]));
        proof {
            assert(path@.take(j + 1) =~= path@.take(j as int).push(path@[j as int]));
        }
        j = j + 1;
    }
    proof {
        assert(path@.take(end as int) =~= truncated_path(path@));
    }
    out
}

/// The two paths have the same properties and the same optional flags.
pub open spec fn same_path(a: Seq<DependencyPathEntry>, b: Seq<DependencyPathEntry>) -> bool {
    &&& a.len() == b.len()
    &&& forall|i: int| 0 <= i < a.len() ==> a[i].property@ == b[i].property@ && a[i].optional == b[i].optional
}

/// Check if two dependencies refer to the same root and path.
pub fn dependencies_equal(a: &ReactiveScopeDependency, b: &ReactiveScopeDependency) -> (r: bool)
    ensures
        r == (a.identifier.id == b.identifier.id && same_path(a.path@, b.path@)),
{
    a.identifier.id == b.identifier.id && paths_equal(a.path.as_slice(), b.path.as_slice())
}

/// Check if two dependency paths are structurally equal.
pub fn paths_equal(a: &[DependencyPathEntry], b: &[DependencyPathEntry]) -> (r: bool)
    ensures
        r == same_path(a@, b@),
{
    if a.len() != b.len() {
        return false;
    }
    let mut i: usize = 0;
    while i < a.len()
        invariant
            i <= a@.len(),
            a@.len() == b@.len(),
            forall|j: int| 0 <= j < i ==> a@[j].property@ == b@[j].property@ && a@[j].optional == b@[j].optional,
        decreases a.len() - i,
    {
        if a[i].property != b[i].property || a[i].optional != b[i].optional {
            return false;
        }
        i = i + 1;
    }
    true
}


/// Comparing `b` with `a` gives the mirror image of comparing `a` with `b`.
pub proof fn lemma_compare_paths_flip(a: Seq<DependencyPathEntry>, b: Seq<DependencyPathEntry>)
    ensures
        path_comparison(b, a) == flip(path_comparison(a, b)),
{
}

/// Every path compares `Equal` with itself.
pub proof fn lemma_compare_paths_reflexive(a: Seq<DependencyPathEntry>)
    ensures
        path_comparison(a, a) == Some(Ordering::Equal),
{
}

/// Structurally equal paths compare `Equal`.
pub proof fn lemma_paths_equal_compare_equal(a: Seq<DependencyPathEntry>, b: Seq<DependencyPathEntry>)
    requires
        same_path(a, b),
    ensures
        path_comparison(a, b) == Some(Ordering::Equal),
{
}

/// Every dependency subsumes itself.
pub proof fn lemma_subsumes_reflexive(d: DependencyModel)
    ensures
        subsumes(d, d),
{
}

/// Subsumption is transitive: `props` subsumes `props.a`, which subsumes
/// `props.a.b`, so `props` subsumes `props.a.b`.
pub proof fn lemma_subsumes_transitive(a: DependencyModel, b: DependencyModel, c: DependencyModel)
    requires
        subsumes(a, b),
        subsumes(b, c),
    ensures
        subsumes(a, c),
{
    assert forall|i: int| 0 <= i < a.path.len() ==> (#[trigger] a.path[i]).optional ==> c.path[i].optional by {
        if 0 <= i < a.path.len() && a.path[i].optional {
            assert(b.path[i].optional);
        }
    }
}

/// Two dependencies with the same root and the same path subsume each other.
pub proof fn lemma_equal_dependencies_subsume(a: DependencyModel, b: DependencyModel)
    requires
        a.identifier.id == b.identifier.id,
        same_path(a.path, b.path),
    ensures
        subsumes(a, b),
        subsumes(b, a),
{
}

proof fn lemma_filter_sub(s: Seq<DependencyModel>, pred: spec_fn(DependencyModel) -> bool, i: int)
    requires
        0 <= i < s.filter(pred).len(),
    ensures
        s.contains(s.filter(pred)[i]),
        pred(s.filter(pred)[i]),
{
    broadcast use vstd::seq_lib::group_filter_ensures;
    assert(s.filter(pred).contains(s.filter(pred)[i]));
    s.lemma_filter_contains_rev(pred, s.filter(pred)[i]);
}

proof fn lemma_filter_minimal(s: Seq<DependencyModel>, pred: spec_fn(DependencyModel) -> bool)
    requires
        is_minimal(s),
    ensures
        is_minimal(s.filter(pred)),
    decreases s.len(),
{
    reveal_with_fuel(Seq::filter, 1);
    if s.len() > 0 {
        lemma_filter_minimal(s.drop_last(), pred);
        let f = s.filter(pred);
        let g = s.drop_last().filter(pred);
        if pred(s.last()) {
            assert forall|i: int, j: int| 0 <= i < f.len() && 0 <= j < f.len() && i != j implies !subsumes(#[trigger] f[i], #[trigger] f[j]) by {
                if i < g.len() && j < g.len() {
                    assert(f[i] == g[i] && f[j] == g[j]);
                } else if i < g.len() {
                    lemma_filter_sub(s.drop_last(), pred, i);
                    let k = choose|k: int| 0 <= k < s.drop_last().len() && s.drop_last()[k] == g[i];
                    assert(s[k] == f[i]);
                    assert(s[s.len() - 1] == f[j]);
                } else {
                    lemma_filter_sub(s.drop_last(), pred, j);
                    let k = choose|k: int| 0 <= k < s.drop_last().len() && s.drop_last()[k] == g[j];
                    assert(s[k] == f[j]);
                    assert(s[s.len() - 1] == f[i]);
                }
            }
        }
    }
}

/// Adding a dependency to a list without redundant entries leaves a list
/// without redundant entries.
pub proof fn lemma_add_keeps_minimal(s: Seq<DependencyModel>, d: DependencyModel)
    requires
        is_minimal(s),
    ensures
        is_minimal(add_to_list(s, d)),
{
    if !covered(s, d) {
        let pred = |e: DependencyModel| !subsumes(d, e);
        let f = s.filter(pred);
        lemma_filter_minimal(s, pred);
        let r = f.push(d);
        assert forall|i: int, j: int| 0 <= i < r.len() && 0 <= j < r.len() && i != j implies !subsumes(#[trigger] r[i], #[trigger] r[j]) by {
            if i < f.len() && j < f.len() {
                assert(r[i] == f[i] && r[j] == f[j]);
            } else if i < f.len() {
                lemma_filter_sub(s, pred, i);
                let k = choose|k: int| 0 <= k < s.len() && s[k] == f[i];
                assert(!subsumes(s[k], d));
            } else {
                lemma_filter_sub(s, pred, j);
            }
        }
    }
}

/// After adding `d`, the list covers `d` and everything the list covered before.
pub proof fn lemma_add_covers(s: Seq<DependencyModel>, d: DependencyModel, e: DependencyModel)
    requires
        covered(s, e),
    ensures
        covered(add_to_list(s, d), d),
        covered(add_to_list(s, d), e),
{
    broadcast use vstd::seq_lib::group_filter_ensures;
    if !covered(s, d) {
        let pred = |x: DependencyModel| !subsumes(d, x);
        let f = s.filter(pred);
        let r = f.push(d);
        lemma_subsumes_reflexive(d);
        assert(subsumes(r[r.len() - 1], d));
        let k = choose|k: int| 0 <= k < s.len() && subsumes(#[trigger] s[k], e);
        if subsumes(d, s[k]) {
            lemma_subsumes_transitive(d, s[k], e);
            assert(subsumes(r[r.len() - 1], e));
        } else {
            assert(pred(s[k]));
            assert(f.contains(s[k]));
            let m = choose|m: int| 0 <= m < f.len() && f[m] == s[k];
            assert(r[m] == s[k]);
            assert(subsumes(r[m], e));
        }
    }
}

/// Every entry of the list after adding `d` is `d` or was already in the list.
pub proof fn lemma_add_from_inputs(s: Seq<DependencyModel>, d: DependencyModel, i: int)
    requires
        0 <= i < add_to_list(s, d).len(),
    ensures
        add_to_list(s, d)[i] == d || s.contains(add_to_list(s, d)[i]),
{
    if !covered(s, d) {
        let pred = |x: DependencyModel| !subsumes(d, x);
        let f = s.filter(pred);
        if i < f.len() {
            lemma_filter_sub(s, pred, i);
        }
    }
}

/// Merging dependency lists yields a list without redundant entries that
/// covers every input dependency and holds only input dependencies.
pub proof fn lemma_add_all_sound_and_complete(items: Seq<DependencyModel>)
    ensures
        is_minimal(add_all(Seq::empty(), items)),
        forall|k: int| 0 <= k < items.len() ==> covered(add_all(Seq::empty(), items), #[trigger] items[k]),
        forall|i: int| 0 <= i < add_all(Seq::empty(), items).len() ==> items.contains(#[trigger] add_all(Seq::empty(), items)[i]),
    decreases items.len(),
{
    if items.len() > 0 {
        let prev = items.drop_last();
        let d = items.last();
        lemma_add_all_sound_and_complete(prev);
        let s = add_all(Seq::empty(), prev);
        let r = add_all(Seq::empty(), items);
        assert(r == add_to_list(s, d));
        lemma_add_keeps_minimal(s, d);
        assert forall|k: int| 0 <= k < items.len() implies covered(r, #[trigger] items[k]) by {
            if k < items.len() - 1 {
                assert(prev[k] == items[k]);
                lemma_add_covers(s, d, items[k]);
            } else {
                if covered(s, d) {
                    lemma_add_covers(s, d, d);
                } else {
                    lemma_subsumes_reflexive(d);
                    let r2 = r;
                    assert(subsumes(r2[r2.len() - 1], d));
                }
            }
        }
        assert forall|i: int| 0 <= i < r.len() implies items.contains(#[trigger] r[i]) by {
            lemma_add_from_inputs(s, d, i);
            if r[i] == d {
                assert(items[items.len() - 1] == d);
            } else {
                let k = choose|k: int| 0 <= k < s.len() && s[k] == r[i];
                assert(prev.contains(s[k]));
                let m = choose|m: int| 0 <= m < prev.len() && prev[m] == s[k];
                assert(items[m] == prev[m]);
            }
        }
    }
}

/// Cutting a path at its last optional access twice is the same as once.
pub proof fn lemma_truncate_idempotent(path: Seq<DependencyPathEntry>)
    ensures
        truncated_path(truncated_path(path)) == truncated_path(path),
        truncated_path(path).len() <= path.len(),
        forall|j: int| 0 <= j < truncated_path(path).len() ==> #[trigger] truncated_path(path)[j] == path[j],
{
    lemma_last_optional_index(path);
    let t = truncated_path(path);
    lemma_last_optional_index(t);
    let li = last_optional_index(path);
    let lt = last_optional_index(t);
    if li >= 0 {
        assert(t[li].optional);
        assert(lt == li);
        assert(t.take(lt + 1) =~= t);
    } else {
        assert(t == path);
    }
}


/// The dependencies whose root identifier is `k`, in order.
pub open spec fn with_root(deps: Seq<ReactiveScopeDependency>, k: u32) -> Seq<ReactiveScopeDependency> {
    deps.filter(|d: ReactiveScopeDependency| d.identifier.id.0 == k)
}

/// Group dependencies by their root identifier (keyed by its number): each
/// root that occurs maps to its dependencies in their original order.
pub fn group_by_root(deps: &[ReactiveScopeDependency]) -> (r: FxHashMap<u32, Vec<&ReactiveScopeDependency>>)
    ensures
        forall|k: u32| r@.contains_key(k) <==> (exists|j: int| 0 <= j < deps@.len() && (#[trigger] deps@[j]).identifier.id.0 == k),
        forall|k: u32| #[trigger] r@.contains_key(k) ==> r@[k]@.map_values(|d: &ReactiveScopeDependency| *d) == with_root(deps@, k),
{
    let mut groups: FxHashMap<u32, Vec<&ReactiveScopeDependency>> = FxHashMap::default();
    proof {
        assert(groups@ =~= Map::<u32, Vec<&ReactiveScopeDependency>>::empty());
    }
    let mut i: usize = 0;
    while i < deps.len()
        invariant
            i <= deps@.len(),
            forall|k: u32| groups@.contains_key(k) <==> (exists|j: int| 0 <= j < i && (#[trigger] deps@[j]).identifier.id.0 == k),
            forall|k: u32| #[trigger] groups@.contains_key(k) ==> groups@[k]@.map_values(|d: &ReactiveScopeDependency| *d) == with_root(deps@.take(i as int), k),
        decreases deps.len() - i,
    {
        let d = &deps[i];
        let k = d.identifier.id.0;
        let ghost before = groups@;
        let mut v = match fx_map_remove(&mut groups, k) {
            Some(v) => v,
            None => Vec::new(),
        };
        proof {
            if !before.contains_key(k) {
                assert(with_root(deps@.take(i as int), k) =~= Seq::<ReactiveScopeDependency>::empty()) by {
                    let p = |x: ReactiveScopeDependency| x.identifier.id.0 == k;
                    let pre = deps@.take(i as int);
                    assert forall|j: int| 0 <= j < pre.len() implies !p(#[trigger] pre[j]) by {
                        assert(pre[j] == deps@[j]);
                    }
                    assert(pre.all(|x: ReactiveScopeDependency| !p(x)));
                    pre.lemma_all_neg_filter_empty(p);
                }
            }
            assert(v@.map_values(|x: &ReactiveScopeDependency| *x) == with_root(deps@.take(i as int), k));
        }
        v.push(d);
        fx_map_insert(&mut groups, k, v);
        proof {
            assert(deps@.take(i + 1).drop_last() =~= deps@.take(i as int));
            assert(deps@.take(i + 1).last() == deps@[i as int]);
            assert forall|kk: u32| #[trigger] groups@.contains_key(kk) implies groups@[kk]@.map_values(|x: &ReactiveScopeDependency| *x) == with_root(deps@.take(i + 1), kk) by {
                reveal_with_fuel(Seq::filter, 1);
                if kk == k {
                    assert(groups@[kk]@.map_values(|x: &ReactiveScopeDependency| *x) =~= with_root(deps@.take(i as int), k).push(*d));
                } else {
                    assert(groups@[kk] == before[kk]);
                }
            }
            assert forall|kk: u32| groups@.contains_key(kk) <==> (exists|j: int| 0 <= j < i + 1 && (#[trigger] deps@[j]).identifier.id.0 == kk) by {
                if kk != k && (exists|j: int| 0 <= j < i + 1 && (#[trigger] deps@[j]).identifier.id.0 == kk) {
                    let j = choose|j: int| 0 <= j < i + 1 && (#[trigger] deps@[j]).identifier.id.0 == kk;
                    assert(j < i);
                }
            }
        }
        i = i + 1;
    }
    proof {
        assert(deps@.take(i as int) =~= deps@);
    }
    groups
}

} // verus!
