//! The resolver: links each slice of a catalog to the slices it depends on.
use crate::section::Kind;
use crate::slice::{items_or_empty, Slice, SliceView};
use crate::text::{contains_text, text_contains, texts_contain, texts_equal, texts_view};
use crate::version::{lemma_version_cmp, version_le, version_lt, zero, zero_view, Version, VersionView};
use crate::{strategy_matches, VersionMatchStrategy};
use vstd::multiset::Multiset;
use vstd::prelude::*;

verus! {

broadcast use vstd::seq_lib::group_to_multiset_ensures;

/// What resolution found for one slice: every dependency, as indices of
/// earlier entries of the same list, or the dependency names found nowhere.
#[derive(Debug)]
pub enum Dependencies {
    Resolved(Vec<usize>),
    Unresolved(Vec<String>),
}

/// A slice together with the outcome of resolving its dependencies.
#[derive(Debug)]
pub struct DependentSlice {
    pub slice: Slice,
    pub dependencies: Dependencies,
}

/// The names a slice depends on (its DEP items).
pub open spec fn dependency_names_of(s: SliceView) -> Seq<Seq<char>> {
    items_or_empty(s.sections, Kind::Dep)
}

/// Whether `s` can stand for a dependency called `name`: the name is equal and
/// the version satisfies the strategy against `0.0.0`. DEP items carry no
/// version, so a dependency is requested at `0.0.0`: under `ExactOrGreater`
/// every release qualifies, under `Exact` only `0.0.0`, and under
/// `ExactOrLesser` only versions at most `0.0.0`.
pub open spec fn is_candidate(s: SliceView, name: Seq<char>, st: VersionMatchStrategy) -> bool {
    s.name == name && strategy_matches(s.version, zero_view(), st)
}

pub open spec fn has_candidate(xs: Seq<Slice>, name: Seq<char>, st: VersionMatchStrategy) -> bool {
    exists|k: int| 0 <= k < xs.len() && is_candidate(#[trigger] xs[k]@, name, st)
}

/// Every candidate for `name` in `xs` ranks at most `v`.
pub open spec fn bounded_by(
    xs: Seq<Slice>,
    name: Seq<char>,
    st: VersionMatchStrategy,
    v: VersionView,
) -> bool {
    forall|k: int|
        0 <= k < xs.len() && is_candidate(#[trigger] xs[k]@, name, st) ==> version_le(
            xs[k]@.version,
            v,
        )
}

/// The names of `ds`, in order, for which `xs` holds no candidate.
pub open spec fn missing_names(
    ds: Seq<Seq<char>>,
    xs: Seq<Slice>,
    st: VersionMatchStrategy,
) -> Seq<Seq<char>>
    decreases ds.len(),
{
    if ds.len() == 0 {
        ds
    } else if has_candidate(xs, ds.last(), st) {
        missing_names(ds.drop_last(), xs, st)
    } else {
        missing_names(ds.drop_last(), xs, st).push(ds.last())
    }
}

pub open spec fn slices_of(es: Seq<DependentSlice>) -> Seq<Slice> {
    es.map_values(|e: DependentSlice| e.slice)
}

/// The last entry of `p` agrees with the entries before it: either each of its
/// dependencies is an earlier entry that is a candidate of the highest version
/// among the earlier entries, or it lists, in order, the dependency names for
/// which no earlier entry is a candidate, and there is at least one.
pub open spec fn last_entry_wf(p: Seq<DependentSlice>, st: VersionMatchStrategy) -> bool {
    let i = p.len() - 1;
    let before = slices_of(p.subrange(0, i));
    let deps = dependency_names_of(p[i].slice@);
    p.len() > 0 && match p[i].dependencies {
        Dependencies::Resolved(ix) => ix@.len() == deps.len() && forall|j: int|
            0 <= j < deps.len() ==> {
                &&& #[trigger] ix@[j] < i
                &&& is_candidate(p[ix@[j] as int].slice@, deps[j], st)
                &&& bounded_by(before, deps[j], st, p[ix@[j] as int].slice@.version)
            },
        Dependencies::Unresolved(ms) => ms@.len() > 0 && texts_view(ms@) == missing_names(
            deps,
            before,
            st,
        ),
    }
}

/// Every entry agrees with the entries before it.
pub open spec fn entries_wf(es: Seq<DependentSlice>, st: VersionMatchStrategy) -> bool {
    forall|i: int| 0 <= i < es.len() ==> last_entry_wf(#[trigger] es.subrange(0, i + 1), st)
}

proof fn lemma_extend_wf(es: Seq<DependentSlice>, e: DependentSlice, st: VersionMatchStrategy)
    requires
        entries_wf(es, st),
        last_entry_wf(es.push(e), st),
    ensures
        entries_wf(es.push(e), st),
{
    let es2 = es.push(e);
    assert forall|i: int| 0 <= i < es2.len() implies last_entry_wf(
        #[trigger] es2.subrange(0, i + 1),
        st,
    ) by {
        if i < es.len() {
            assert(es2.subrange(0, i + 1) =~= es.subrange(0, i + 1));
        } else {
            assert(es2.subrange(0, i + 1) =~= es2);
        }
    }
}

proof fn lemma_missing_congruent(
    ds: Seq<Seq<char>>,
    xs: Seq<Slice>,
    ys: Seq<Slice>,
    st: VersionMatchStrategy,
)
    requires
        forall|k: int|
            0 <= k < ds.len() ==> has_candidate(xs, #[trigger] ds[k], st) == has_candidate(
                ys,
                ds[k],
                st,
            ),
    ensures
        missing_names(ds, xs, st) == missing_names(ds, ys, st),
    decreases ds.len(),
{
    if ds.len() > 0 {
        assert(has_candidate(xs, ds[ds.len() - 1], st) == has_candidate(ys, ds[ds.len() - 1], st));
        lemma_missing_congruent(ds.drop_last(), xs, ys, st);
    }
}

proof fn lemma_missing_empty(ds: Seq<Seq<char>>, xs: Seq<Slice>, st: VersionMatchStrategy)
    requires
        missing_names(ds, xs, st).len() == 0,
    ensures
        forall|k: int| 0 <= k < ds.len() ==> has_candidate(xs, #[trigger] ds[k], st),
    decreases ds.len(),
{
    if ds.len() > 0 {
        lemma_missing_empty(ds.drop_last(), xs, st);
        assert forall|k: int| 0 <= k < ds.len() implies has_candidate(xs, #[trigger] ds[k], st) by {
            if k < ds.len() - 1 {
                assert(ds[k] == ds.drop_last()[k]);
            }
        }
    }
}

proof fn lemma_remove_contains(s: Seq<Slice>, i: int)
    requires
        0 <= i < s.len(),
    ensures
        forall|x: Slice| s.remove(i).contains(x) ==> s.contains(x),
{
    assert forall|x: Slice| s.remove(i).contains(x) implies s.contains(x) by {
        let k = choose|k: int| 0 <= k < s.remove(i).len() && s.remove(i)[k] == x;
        if k < i {
            assert(s[k] == x);
        } else {
            assert(s[k + 1] == x);
        }
    }
}

/// Growing `out` by slices taken from `pool`, and shrinking `pool`, keeps a
/// bound on the candidates for `name`, and keeps their absence.
proof fn lemma_grow(
    out: Seq<DependentSlice>,
    out2: Seq<DependentSlice>,
    pool: Seq<Slice>,
    pool2: Seq<Slice>,
    name: Seq<char>,
    st: VersionMatchStrategy,
    v: VersionView,
)
    requires
        out2.len() >= out.len(),
        out2.subrange(0, out.len() as int) == out,
        forall|k: int| out.len() <= k < out2.len() ==> pool.contains(#[trigger] out2[k].slice),
        forall|x: Slice| pool2.contains(x) ==> pool.contains(x),
    ensures
        bounded_by(slices_of(out), name, st, v) && bounded_by(pool, name, st, v) ==> bounded_by(
            slices_of(out2),
            name,
            st,
            v,
        ) && bounded_by(pool2, name, st, v),
        !has_candidate(slices_of(out), name, st) && !has_candidate(pool, name, st) ==> !has_candidate(
            slices_of(out2),
            name,
            st,
        ) && !has_candidate(pool2, name, st),
        has_candidate(slices_of(out), name, st) ==> has_candidate(slices_of(out2), name, st),
{
    let s1 = slices_of(out);
    let s2 = slices_of(out2);
    assert forall|k: int| 0 <= k < out.len() implies #[trigger] s2[k] == s1[k] by {
        assert(out2[k] == out2.subrange(0, out.len() as int)[k]);
    }
    if has_candidate(s1, name, st) {
        let k = choose|k: int| 0 <= k < s1.len() && is_candidate(#[trigger] s1[k]@, name, st);
        assert(s2[k] == s1[k]);
    }
    if bounded_by(s1, name, st, v) && bounded_by(pool, name, st, v) {
        assert forall|k: int| 0 <= k < s2.len() && is_candidate(#[trigger] s2[k]@, name, st) implies version_le(
            s2[k]@.version,
            v,
        ) by {
            if k < out.len() {
                assert(s2[k] == s1[k]);
            } else {
                assert(pool.contains(out2[k].slice));
                let q = choose|q: int| 0 <= q < pool.len() && pool[q] == out2[k].slice;
                assert(pool[q]@ == s2[k]@);
            }
        }
        assert forall|k: int| 0 <= k < pool2.len() && is_candidate(#[trigger] pool2[k]@, name, st) implies version_le(
            pool2[k]@.version,
            v,
        ) by {
            assert(pool2.contains(pool2[k]));
            let q = choose|q: int| 0 <= q < pool.len() && pool[q] == pool2[k];
            assert(pool[q]@ == pool2[k]@);
        }
    }
    if !has_candidate(s1, name, st) && !has_candidate(pool, name, st) {
        if has_candidate(s2, name, st) {
            let k = choose|k: int| 0 <= k < s2.len() && is_candidate(#[trigger] s2[k]@, name, st);
            if k < out.len() {
                assert(s2[k] == s1[k]);
            } else {
                assert(pool.contains(out2[k].slice));
                let q = choose|q: int| 0 <= q < pool.len() && pool[q] == out2[k].slice;
                assert(pool[q]@ == s2[k]@);
            }
        }
        if has_candidate(pool2, name, st) {
            let k = choose|k: int| 0 <= k < pool2.len() && is_candidate(#[trigger] pool2[k]@, name, st);
            assert(pool2.contains(pool2[k]));
            let q = choose|q: int| 0 <= q < pool.len() && pool[q] == pool2[k];
            assert(pool[q]@ == pool2[k]@);
        }
    }
}

/// The first candidate for `name` of the highest version in `xs`, if any.
pub open spec fn best_first(xs: Seq<Slice>, name: Seq<char>, st: VersionMatchStrategy) -> Option<int>
    decreases xs.len(),
{
    if xs.len() == 0 {
        None
    } else {
        let b = best_first(xs.drop_last(), name, st);
        if is_candidate(xs.last()@, name, st) && (b is None || version_lt(
            xs[b->0]@.version,
            xs.last()@.version,
        )) {
            Some(xs.len() - 1)
        } else {
            b
        }
    }
}

proof fn lemma_best_first_bounds(xs: Seq<Slice>, name: Seq<char>, st: VersionMatchStrategy)
    ensures
        best_first(xs, name, st) matches Some(k) ==> 0 <= k < xs.len(),
    decreases xs.len(),
{
    if xs.len() > 0 {
        lemma_best_first_bounds(xs.drop_last(), name, st);
    }
}

pub open spec fn as_index(o: Option<usize>) -> Option<int> {
    match o {
        Some(k) => Some(k as int),
        None => None,
    }
}

fn is_candidate_exec(s: &Slice, name: &String, st: VersionMatchStrategy, zero_v: &Version) -> (r: bool)
    requires
        zero_v@ == zero_view(),
    ensures
        r == is_candidate(s@, name@, st),
{
    s.name == *name && st.matches(&s.version, zero_v)
}

/// The index of a candidate for `name` of the highest version in `xs`, if any.
fn best_in_pool(xs: &Vec<Slice>, name: &String, st: VersionMatchStrategy, zero_v: &Version) -> (r:
    Option<usize>)
    requires
        zero_v@ == zero_view(),
    ensures
        r is None ==> !has_candidate(xs@, name@, st),
        r matches Some(k) ==> k < xs@.len() && is_candidate(xs@[k as int]@, name@, st)
            && bounded_by(xs@, name@, st, xs@[k as int]@.version),
        as_index(r) == best_first(xs@, name@, st),
{
    let mut best: Option<usize> = None;
    let mut i: usize = 0;
    while i < xs.len()
        invariant
            zero_v@ == zero_view(),
            i <= xs@.len(),
            as_index(best) == best_first(xs@.subrange(0, i as int), name@, st),
            best is None ==> forall|k: int| 0 <= k < i ==> !is_candidate(#[trigger] xs@[k]@, name@, st),
            best matches Some(b) ==> b < i && is_candidate(xs@[b as int]@, name@, st) && forall|k: int|
                0 <= k < i && is_candidate(#[trigger] xs@[k]@, name@, st) ==> version_le(
                    xs@[k]@.version,
                    xs@[b as int]@.version,
                ),
        decreases xs.len() - i,
    {
        assert(xs@.subrange(0, i + 1).drop_last() =~= xs@.subrange(0, i as int));
        assert(xs@.subrange(0, i + 1).last() == xs@[i as int]);
        proof {
            lemma_best_first_bounds(xs@.subrange(0, i as int), name@, st);
            if best is Some {
                assert(xs@.subrange(0, i + 1)[best->0 as int] == xs@[best->0 as int]);
            }
        }
        if is_candidate_exec(&xs[i], name, st, zero_v) {
            match best {
                None => {
                    proof {
                        lemma_version_cmp(xs@[i as int]@.version, xs@[i as int]@.version, xs@[i as int]@.version);
                    }
                    best = Some(i);
                },
                Some(b) => {
                    if xs[b].version.is_less_than(&xs[i].version) {
                        proof {
                            assert forall|k: int|
                                0 <= k < i + 1 && is_candidate(#[trigger] xs@[k]@, name@, st) implies version_le(
                                xs@[k]@.version,
                                xs@[i as int]@.version,
                            ) by {
                                lemma_version_cmp(xs@[k]@.version, xs@[b as int]@.version, xs@[i as int]@.version);
                                lemma_version_cmp(xs@[k]@.version, xs@[k]@.version, xs@[k]@.version);
                            }
                        }
                        best = Some(i);
                    } else {
                        proof {
                            lemma_version_cmp(xs@[b as int]@.version, xs@[i as int]@.version, xs@[b as int]@.version);
                        }
                    }
                },
            }
        }
        i = i + 1;
    }
    assert(xs@.subrange(0, i as int) =~= xs@);
    best
}

/// The index of a candidate for `name` of the highest version among the
/// resolved entries `es`, if any.
fn best_in_entries(
    es: &Vec<DependentSlice>,
    name: &String,
    st: VersionMatchStrategy,
    zero_v: &Version,
) -> (r: Option<usize>)
    requires
        zero_v@ == zero_view(),
    ensures
        r is None ==> !has_candidate(slices_of(es@), name@, st),
        r matches Some(k) ==> k < es@.len() && is_candidate(es@[k as int].slice@, name@, st)
            && bounded_by(slices_of(es@), name@, st, es@[k as int].slice@.version),
        as_index(r) == best_first(slices_of(es@), name@, st),
{
    let ghost xs = slices_of(es@);
    let mut best: Option<usize> = None;
    let mut i: usize = 0;
    while i < es.len()
        invariant
            zero_v@ == zero_view(),
            xs == slices_of(es@),
            i <= es@.len(),
            as_index(best) == best_first(xs.subrange(0, i as int), name@, st),
            best is None ==> forall|k: int| 0 <= k < i ==> !is_candidate(#[trigger] xs[k]@, name@, st),
            best matches Some(b) ==> b < i && is_candidate(xs[b as int]@, name@, st) && forall|k: int|
                0 <= k < i && is_candidate(#[trigger] xs[k]@, name@, st) ==> version_le(
                    xs[k]@.version,
                    xs[b as int]@.version,
                ),
        decreases es.len() - i,
    {
        assert(xs[i as int] == es@[i as int].slice);
        assert(xs.subrange(0, i + 1).drop_last() =~= xs.subrange(0, i as int));
        assert(xs.subrange(0, i + 1).last() == xs[i as int]);
        proof {
            lemma_best_first_bounds(xs.subrange(0, i as int), name@, st);
            if best is Some {
                assert(xs.subrange(0, i + 1)[best->0 as int] == xs[best->0 as int]);
            }
        }
        if is_candidate_exec(&es[i].slice, name, st, zero_v) {
            match best {
                None => {
                    proof {
                        lemma_version_cmp(xs[i as int]@.version, xs[i as int]@.version, xs[i as int]@.version);
                    }
                    best = Some(i);
                },
                Some(b) => {
                    assert(xs[b as int] == es@[b as int].slice);
                    if es[b].slice.version.is_less_than(&es[i].slice.version) {
                        proof {
                            assert forall|k: int|
                                0 <= k < i + 1 && is_candidate(#[trigger] xs[k]@, name@, st) implies version_le(
                                xs[k]@.version,
                                xs[i as int]@.version,
                            ) by {
                                lemma_version_cmp(xs[k]@.version, xs[b as int]@.version, xs[i as int]@.version);
                                lemma_version_cmp(xs[k]@.version, xs[k]@.version, xs[k]@.version);
                            }
                        }
                        best = Some(i);
                    } else {
                        proof {
                            lemma_version_cmp(xs[b as int]@.version, xs[i as int]@.version, xs[b as int]@.version);
                        }
                    }
                },
            }
        }
        i = i + 1;
    }
    assert(xs.subrange(0, i as int) =~= xs);
    best
}

/// A ranking of the slices under which every slice ranks above each candidate
/// for one of its dependencies.
pub open spec fn ranked(input: Seq<Slice>, st: VersionMatchStrategy, rank: spec_fn(Slice) -> nat) -> bool {
    forall|x: Slice, y: Slice, k: int|
        #![trigger is_candidate(y@, dependency_names_of(x@)[k], st), input.contains(x), input.contains(y)]
        input.contains(x) && input.contains(y) && 0 <= k < dependency_names_of(x@).len() && is_candidate(
            y@,
            dependency_names_of(x@)[k],
            st,
        ) ==> rank(y) < rank(x)
}

/// The slices have no dependency cycle: following dependencies to their
/// candidates never leads back.
pub open spec fn acyclic(input: Seq<Slice>, st: VersionMatchStrategy) -> bool {
    exists|rank: spec_fn(Slice) -> nat| ranked(input, st, rank)
}

/// Every slice of `xs` is one of `input`.
pub open spec fn within(xs: Seq<Slice>, input: Seq<Slice>) -> bool {
    forall|c: Slice| xs.contains(c) ==> input.contains(c)
}

/// Every slice of `input` is in the pool, among the resolved, or on the stack
/// of slices being resolved.
pub open spec fn covered(input: Seq<Slice>, pool: Seq<Slice>, outs: Seq<Slice>, stack: Seq<Slice>) -> bool {
    forall|c: Slice| input.contains(c) ==> pool.contains(c) || outs.contains(c) || stack.contains(c)
}

/// The last entry of `p` agrees with the whole input: each dependency it was
/// resolved to ranks highest among all candidates in the input, and the names
/// it records as missing are those for which the input holds no candidate.
pub open spec fn last_entry_global(p: Seq<DependentSlice>, input: Seq<Slice>, st: VersionMatchStrategy) -> bool {
    let i = p.len() - 1;
    let deps = dependency_names_of(p[i].slice@);
    p.len() > 0 && match p[i].dependencies {
        Dependencies::Resolved(ix) => ix@.len() == deps.len() && missing_names(deps, input, st).len() == 0
            && forall|j: int|
            0 <= j < deps.len() ==> #[trigger] ix@[j] < i && bounded_by(
                input,
                deps[j],
                st,
                p[ix@[j] as int].slice@.version,
            ),
        Dependencies::Unresolved(ms) => texts_view(ms@) == missing_names(deps, input, st),
    }
}

/// Every entry agrees with the whole input (see `last_entry_global`).
pub open spec fn entries_global(es: Seq<DependentSlice>, input: Seq<Slice>, st: VersionMatchStrategy) -> bool {
    forall|i: int| 0 <= i < es.len() ==> last_entry_global(#[trigger] es.subrange(0, i + 1), input, st)
}

proof fn lemma_extend_global(es: Seq<DependentSlice>, e: DependentSlice, input: Seq<Slice>, st: VersionMatchStrategy)
    requires
        entries_global(es, input, st),
        last_entry_global(es.push(e), input, st),
    ensures
        entries_global(es.push(e), input, st),
{
    let es2 = es.push(e);
    assert forall|i: int| 0 <= i < es2.len() implies last_entry_global(
        #[trigger] es2.subrange(0, i + 1),
        input,
        st,
    ) by {
        if i < es.len() {
            assert(es2.subrange(0, i + 1) =~= es.subrange(0, i + 1));
        } else {
            assert(es2.subrange(0, i + 1) =~= es2);
        }
    }
}

/// While `slice` is resolved and no cycle exists, every candidate in the input
/// for one of its dependencies is in the pool or among the resolved slices.
proof fn lemma_input_candidates(
    input: Seq<Slice>,
    st: VersionMatchStrategy,
    rank: spec_fn(Slice) -> nat,
    slice: Slice,
    stack: Seq<Slice>,
    pool: Seq<Slice>,
    outs: Seq<Slice>,
    j: int,
)
    requires
        ranked(input, st, rank),
        input.contains(slice),
        forall|y: Slice| stack.contains(y) ==> rank(y) > rank(slice),
        covered(input, pool, outs, stack.push(slice)),
        within(pool, input),
        within(outs, input),
        0 <= j < dependency_names_of(slice@).len(),
    ensures
        has_candidate(input, dependency_names_of(slice@)[j], st) == (has_candidate(
            pool,
            dependency_names_of(slice@)[j],
            st,
        ) || has_candidate(outs, dependency_names_of(slice@)[j], st)),
        forall|v: VersionView|
            bounded_by(pool, dependency_names_of(slice@)[j], st, v) && bounded_by(
                outs,
                dependency_names_of(slice@)[j],
                st,
                v,
            ) ==> #[trigger] bounded_by(input, dependency_names_of(slice@)[j], st, v),
{
    let d = dependency_names_of(slice@)[j];
    assert forall|k: int| 0 <= k < input.len() && is_candidate(#[trigger] input[k]@, d, st) implies (exists|q: int|
        0 <= q < pool.len() && pool[q] == input[k]) || (exists|q: int| 0 <= q < outs.len() && outs[q] == input[k]) by {
        let c = input[k];
        assert(input.contains(c));
        assert(is_candidate(c@, dependency_names_of(slice@)[j], st));
        assert(rank(c) < rank(slice));
        if stack.push(slice).contains(c) {
            let q = choose|q: int| 0 <= q < stack.push(slice).len() && stack.push(slice)[q] == c;
            if q < stack.len() {
                assert(stack.contains(c));
            }
        }
    }
    if has_candidate(input, d, st) {
        let k = choose|k: int| 0 <= k < input.len() && is_candidate(#[trigger] input[k]@, d, st);
        if exists|q: int| 0 <= q < pool.len() && pool[q] == input[k] {
            let q = choose|q: int| 0 <= q < pool.len() && pool[q] == input[k];
            assert(is_candidate(pool[q]@, d, st));
        } else {
            let q = choose|q: int| 0 <= q < outs.len() && outs[q] == input[k];
            assert(is_candidate(outs[q]@, d, st));
        }
    }
    if has_candidate(pool, d, st) {
        let q = choose|q: int| 0 <= q < pool.len() && is_candidate(#[trigger] pool[q]@, d, st);
        assert(pool.contains(pool[q]));
        let k = choose|k: int| 0 <= k < input.len() && input[k] == pool[q];
        assert(is_candidate(input[k]@, d, st));
    }
    if has_candidate(outs, d, st) {
        let q = choose|q: int| 0 <= q < outs.len() && is_candidate(#[trigger] outs[q]@, d, st);
        assert(outs.contains(outs[q]));
        let k = choose|k: int| 0 <= k < input.len() && input[k] == outs[q];
        assert(is_candidate(input[k]@, d, st));
    }
    assert forall|v: VersionView|
        bounded_by(pool, d, st, v) && bounded_by(outs, d, st, v) implies #[trigger] bounded_by(input, d, st, v) by {
        assert forall|k: int| 0 <= k < input.len() && is_candidate(#[trigger] input[k]@, d, st) implies version_le(
            input[k]@.version,
            v,
        ) by {
            if exists|q: int| 0 <= q < pool.len() && pool[q] == input[k] {
                let q = choose|q: int| 0 <= q < pool.len() && pool[q] == input[k];
                assert(is_candidate(pool[q]@, d, st));
            } else {
                let q = choose|q: int| 0 <= q < outs.len() && outs[q] == input[k];
                assert(is_candidate(outs[q]@, d, st));
            }
        }
    }
}

proof fn lemma_remove_cover(s: Seq<Slice>, i: int)
    requires
        0 <= i < s.len(),
    ensures
        forall|x: Slice| s.contains(x) ==> s.remove(i).contains(x) || x == s[i],
{
    assert forall|x: Slice| s.contains(x) implies s.remove(i).contains(x) || x == s[i] by {
        let k = choose|k: int| 0 <= k < s.len() && s[k] == x;
        if k < i {
            assert(s.remove(i)[k] == x);
        } else if k > i {
            assert(s.remove(i)[k - 1] == x);
        }
    }
}

proof fn lemma_push_contains(s: Seq<Slice>, e: Slice)
    ensures
        forall|x: Slice| s.push(e).contains(x) ==> s.contains(x) || x == e,
        forall|x: Slice| s.contains(x) ==> s.push(e).contains(x),
        s.push(e).contains(e),
{
    assert forall|x: Slice| s.push(e).contains(x) implies s.contains(x) || x == e by {
        let k = choose|k: int| 0 <= k < s.push(e).len() && s.push(e)[k] == x;
        if k < s.len() {
            assert(s[k] == x);
        }
    }
    assert forall|x: Slice| s.contains(x) implies s.push(e).contains(x) by {
        let k = choose|k: int| 0 <= k < s.len() && s[k] == x;
        assert(s.push(e)[k] == x);
    }
    assert(s.push(e)[s.len() as int] == e);
}

/// The resolved slices after a step that took slices from the pool.
proof fn lemma_outs_grow(
    out: Seq<DependentSlice>,
    out2: Seq<DependentSlice>,
    pool: Seq<Slice>,
    input: Seq<Slice>,
)
    requires
        out2.len() >= out.len(),
        out2.subrange(0, out.len() as int) == out,
        forall|k: int| out.len() <= k < out2.len() ==> pool.contains(#[trigger] out2[k].slice),
        within(pool, input),
        within(slices_of(out), input),
    ensures
        within(slices_of(out2), input),
        forall|x: Slice| slices_of(out).contains(x) ==> slices_of(out2).contains(x),
{
    assert forall|x: Slice| slices_of(out2).contains(x) implies input.contains(x) by {
        let k = choose|k: int| 0 <= k < slices_of(out2).len() && slices_of(out2)[k] == x;
        if k < out.len() {
            assert(out2[k] == out2.subrange(0, out.len() as int)[k]);
            assert(slices_of(out)[k] == x);
        } else {
            assert(pool.contains(out2[k].slice));
        }
    }
    assert forall|x: Slice| slices_of(out).contains(x) implies slices_of(out2).contains(x) by {
        let k = choose|k: int| 0 <= k < slices_of(out).len() && slices_of(out)[k] == x;
        assert(out2[k] == out2.subrange(0, out.len() as int)[k]);
        assert(slices_of(out2)[k] == x);
    }
}

/// `f` places each slice of `small` at a position of `big` holding it, in
/// increasing order.
pub open spec fn embeds(f: Seq<int>, small: Seq<Slice>, big: Seq<Slice>) -> bool {
    &&& f.len() == small.len()
    &&& forall|k: int| 0 <= k < f.len() ==> 0 <= #[trigger] f[k] < big.len() && small[k] == big[f[k]]
    &&& forall|a: int, b: int| 0 <= a < b < f.len() ==> f[a] < f[b]
}

/// `small` is `big` with some slices left out, the rest in their order.
pub open spec fn keeps_order(small: Seq<Slice>, big: Seq<Slice>) -> bool {
    exists|f: Seq<int>| embeds(f, small, big)
}

proof fn lemma_remove_embeds(s: Seq<Slice>, i: int)
    requires
        0 <= i < s.len(),
    ensures
        embeds(Seq::new((s.len() - 1) as nat, |k: int| if k < i { k } else { k + 1 }), s.remove(i), s),
{
}

proof fn lemma_compose_embeds(f: Seq<int>, g: Seq<int>, a: Seq<Slice>, b: Seq<Slice>, c: Seq<Slice>)
    requires
        embeds(g, a, b),
        embeds(f, b, c),
    ensures
        embeds(Seq::new(g.len(), |k: int| f[g[k]]), a, c),
{
    let h = Seq::new(g.len(), |k: int| f[g[k]]);
    assert forall|k: int| 0 <= k < h.len() implies 0 <= #[trigger] h[k] < c.len() && a[k] == c[h[k]] by {
        assert(0 <= g[k] < b.len());
    }
    assert forall|x: int, y: int| 0 <= x < y < h.len() implies h[x] < h[y] by {
        assert(g[x] < g[y]);
        assert(0 <= g[y] < b.len());
    }
}

proof fn lemma_slices_of_concat(a: Seq<DependentSlice>, b: Seq<DependentSlice>)
    ensures
        slices_of(a + b) == slices_of(a) + slices_of(b),
{
    assert(slices_of(a + b) =~= slices_of(a) + slices_of(b));
}

/// What resolution records for one entry, over plain values.
pub enum DependenciesView {
    Resolved(Seq<usize>),
    Unresolved(Seq<Seq<char>>),
}

pub open spec fn entry_view(e: DependentSlice) -> (Slice, DependenciesView) {
    (
        e.slice,
        match e.dependencies {
            Dependencies::Resolved(ix) => DependenciesView::Resolved(ix@),
            Dependencies::Unresolved(ms) => DependenciesView::Unresolved(texts_view(ms@)),
        },
    )
}

pub open spec fn entries_view(es: Seq<DependentSlice>) -> Seq<(Slice, DependenciesView)> {
    es.map_values(|e: DependentSlice| entry_view(e))
}

pub open spec fn view_slices(os: Seq<(Slice, DependenciesView)>) -> Seq<Slice> {
    os.map_values(|e: (Slice, DependenciesView)| e.0)
}

/// The state of resolution partway through one slice's dependencies.
pub struct ResolutionState {
    pub pool: Seq<Slice>,
    pub out: Seq<(Slice, DependenciesView)>,
    pub found: Seq<usize>,
    pub missing: Seq<Seq<char>>,
}

/// Resolution of the first `n` dependencies of `s`: for each name, the first
/// candidate of the highest version in the pool and among the resolved ones;
/// the pool's is resolved first and taken where it ranks strictly higher (or
/// is the only one), the resolved one is reused otherwise, and with neither
/// the name is missing.
pub open spec fn resolve_deps(
    s: Slice,
    pool: Seq<Slice>,
    out: Seq<(Slice, DependenciesView)>,
    n: int,
    st: VersionMatchStrategy,
) -> ResolutionState
    decreases pool.len(), 0int, n,
{
    if n <= 0 || n > dependency_names_of(s@).len() {
        ResolutionState { pool, out, found: Seq::empty(), missing: Seq::empty() }
    } else {
        let r = resolve_deps(s, pool, out, n - 1, st);
        let d = dependency_names_of(s@)[n - 1];
        let bp = best_first(r.pool, d, st);
        let bo = best_first(view_slices(r.out), d, st);
        let take = match (bp, bo) {
            (Some(p), Some(o)) => version_lt(view_slices(r.out)[o]@.version, r.pool[p]@.version),
            (Some(_), None) => true,
            _ => false,
        };
        if take && 0 <= bp->0 < r.pool.len() && r.pool.len() <= pool.len() {
            let p = bp->0;
            let (pool2, out2) = resolve_one(r.pool[p], r.pool.remove(p), r.out, st);
            ResolutionState {
                pool: pool2,
                out: out2,
                found: r.found.push((out2.len() - 1) as usize),
                missing: r.missing,
            }
        } else if bo is Some {
            ResolutionState { found: r.found.push(bo->0 as usize), ..r }
        } else {
            ResolutionState { found: r.found.push(0), missing: r.missing.push(d), ..r }
        }
    }
}

/// Resolution of one slice taken from the pool: its dependencies, then the
/// slice itself appended, complete or with the names found missing.
pub open spec fn resolve_one(
    s: Slice,
    pool: Seq<Slice>,
    out: Seq<(Slice, DependenciesView)>,
    st: VersionMatchStrategy,
) -> (Seq<Slice>, Seq<(Slice, DependenciesView)>)
    decreases pool.len(), 1int, 0int,
{
    let r = resolve_deps(s, pool, out, dependency_names_of(s@).len() as int, st);
    let deps = if r.missing.len() == 0 {
        DependenciesView::Resolved(r.found)
    } else {
        DependenciesView::Unresolved(r.missing)
    };
    (r.pool, r.out.push((s, deps)))
}

/// Resolution of a whole pool, taking slices from its front.
pub open spec fn resolve_all(
    pool: Seq<Slice>,
    out: Seq<(Slice, DependenciesView)>,
    st: VersionMatchStrategy,
) -> Seq<(Slice, DependenciesView)>
    decreases pool.len(),
{
    if pool.len() == 0 {
        out
    } else {
        let (p2, o2) = resolve_one(pool[0], pool.remove(0), out, st);
        if p2.len() < pool.len() {
            resolve_all(p2, o2, st)
        } else {
            o2
        }
    }
}

/// The entries, in the order construction places them, that resolving a
/// catalog gives.
pub open spec fn resolution_of(input: Seq<Slice>, st: VersionMatchStrategy) -> Seq<(Slice, DependenciesView)> {
    resolve_all(input, Seq::empty(), st)
}

proof fn lemma_view_slices(es: Seq<DependentSlice>)
    ensures
        view_slices(entries_view(es)) == slices_of(es),
        entries_view(es).len() == es.len(),
{
    assert(view_slices(entries_view(es)) =~= slices_of(es));
}

/// Resolves `slice` and, first, the dependencies it takes from `pool`; appends
/// them to `out`, `slice` last, and returns the index of `slice`.
fn resolve(
    slice: Slice,
    pool: &mut Vec<Slice>,
    out: &mut Vec<DependentSlice>,
    st: VersionMatchStrategy,
    zero_v: &Version,
    Ghost(input): Ghost<Seq<Slice>>,
    Ghost(stack): Ghost<Seq<Slice>>,
    Ghost(rank): Ghost<spec_fn(Slice) -> nat>,
    Ghost(acyc): Ghost<bool>,
) -> (idx: usize)
    requires
        zero_v@ == zero_view(),
        entries_wf(old(out)@, st),
        within(old(pool)@, input),
        within(slices_of(old(out)@), input),
        input.contains(slice),
        covered(input, old(pool)@, slices_of(old(out)@), stack.push(slice)),
        acyc ==> ranked(input, st, rank),
        acyc ==> forall|y: Slice| stack.contains(y) ==> rank(y) > rank(slice),
        acyc ==> entries_global(old(out)@, input, st),
    ensures
        within(final(pool)@, input),
        within(slices_of(final(out)@), input),
        covered(input, final(pool)@, slices_of(final(out)@), stack),
        acyc ==> entries_global(final(out)@, input, st),
        keeps_order(final(pool)@, old(pool)@),
        (final(pool)@, entries_view(final(out)@)) == resolve_one(slice, old(pool)@, entries_view(old(out)@), st),
        final(out)@.len() > old(out)@.len(),
        idx == final(out)@.len() - 1,
        final(out)@.subrange(0, old(out)@.len() as int) == old(out)@,
        final(out)@[idx as int].slice == slice,
        entries_wf(final(out)@, st),
        final(pool)@.len() <= old(pool)@.len(),
        forall|x: Slice| final(pool)@.contains(x) ==> old(pool)@.contains(x),
        forall|k: int|
            old(out)@.len() <= k < final(out)@.len() - 1 ==> old(pool)@.contains(
                #[trigger] final(out)@[k].slice,
            ),
        slices_of(final(out)@.subrange(old(out)@.len() as int, final(out)@.len() as int)).to_multiset().add(
            final(pool)@.to_multiset(),
        ) == old(pool)@.to_multiset().insert(slice),
    decreases old(pool)@.len(),
{
    let deps = slice.dependency_names();
    let ghost dv = texts_view(deps@);
    let ghost out0 = out@;
    let ghost pool0 = pool@;
    let ghost n0 = out0.len() as int;
    let mut found: Vec<usize> = Vec::new();
    let mut missing: Vec<String> = Vec::new();
    let ghost mut flags: Seq<bool> = Seq::empty();
    let mut j: usize = 0;
    let ghost mut f: Seq<int> = Seq::new(pool0.len(), |k: int| k);
    assert(embeds(f, pool@, pool0));
    assert(out@.subrange(n0, n0) =~= Seq::<DependentSlice>::empty());
    assert(slices_of(out@.subrange(n0, n0)) =~= Seq::<Slice>::empty());
    assert(texts_view(missing@) =~= missing_names(dv.subrange(0, 0), slices_of(out@), st));
    assert(found@ =~= Seq::<usize>::empty());
    assert(texts_view(missing@) =~= Seq::<Seq<char>>::empty());
    while j < deps.len()
        invariant
            zero_v@ == zero_view(),
            dv == texts_view(deps@),
            dv == dependency_names_of(slice@),
            old(pool)@ == pool0,
            old(out)@ == out0,
            n0 == out0.len(),
            j <= deps@.len(),
            entries_wf(out@, st),
            out@.len() >= n0,
            out@.subrange(0, n0) == out0,
            pool@.len() <= pool0.len(),
            forall|x: Slice| pool@.contains(x) ==> pool0.contains(x),
            forall|k: int| n0 <= k < out@.len() ==> pool0.contains(#[trigger] out@[k].slice),
            slices_of(out@.subrange(n0, out@.len() as int)).to_multiset().add(pool@.to_multiset())
                == pool0.to_multiset(),
            found@.len() == j,
            flags.len() == j,
            forall|q: int|
                0 <= q < j && #[trigger] flags[q] ==> {
                    &&& found@[q] < out@.len()
                    &&& is_candidate(out@[found@[q] as int].slice@, dv[q], st)
                    &&& bounded_by(slices_of(out@), dv[q], st, out@[found@[q] as int].slice@.version)
                    &&& bounded_by(pool@, dv[q], st, out@[found@[q] as int].slice@.version)
                },
            forall|q: int|
                0 <= q < j && !#[trigger] flags[q] ==> !has_candidate(slices_of(out@), dv[q], st)
                    && !has_candidate(pool@, dv[q], st),
            texts_view(missing@) == missing_names(dv.subrange(0, j as int), slices_of(out@), st),
            within(pool0, input),
            within(pool@, input),
            within(slices_of(out@), input),
            input.contains(slice),
            covered(input, pool@, slices_of(out@), stack.push(slice)),
            acyc ==> ranked(input, st, rank),
            acyc ==> forall|y: Slice| stack.contains(y) ==> rank(y) > rank(slice),
            acyc ==> entries_global(out@, input, st),
            acyc ==> forall|q: int|
                0 <= q < j && #[trigger] flags[q] ==> bounded_by(
                    input,
                    dv[q],
                    st,
                    out@[found@[q] as int].slice@.version,
                ),
            acyc ==> forall|q: int| 0 <= q < j && !#[trigger] flags[q] ==> !has_candidate(input, dv[q], st),
            embeds(f, pool@, pool0),
            resolve_deps(slice, pool0, entries_view(out0), j as int, st) == (ResolutionState {
                pool: pool@,
                out: entries_view(out@),
                found: found@,
                missing: texts_view(missing@),
            }),
        decreases deps.len() - j,
    {
        let name = &deps[j];
        assert(name@ == dv[j as int]);
        let bp = best_in_pool(pool, name, st, zero_v);
        let bo = best_in_entries(out, name, st, zero_v);
        let take_pool = match (bp, bo) {
            (Some(p), Some(o)) => out[o].slice.version.is_less_than(&pool[p].version),
            (Some(_), None) => true,
            _ => false,
        };
        let ghost out_t = out@;
        let ghost pool_t = pool@;
        let ghost missing_t = missing@;
        assert(dv.subrange(0, j + 1).drop_last() =~= dv.subrange(0, j as int));
        proof {
            if acyc {
                lemma_input_candidates(input, st, rank, slice, stack, pool_t, slices_of(out_t), j as int);
            }
            lemma_view_slices(out_t);
            lemma_best_first_bounds(pool_t, dv[j as int], st);
        }
        let ghost found_j = found@;
        let ghost missing_j = missing@;
        if take_pool {
            let p = bp.unwrap();
            let ghost cv = pool_t[p as int]@.version;
            proof {
                match bo {
                    Some(o) => {
                        assert forall|k: int|
                            0 <= k < slices_of(out_t).len() && is_candidate(
                                #[trigger] slices_of(out_t)[k]@,
                                dv[j as int],
                                st,
                            ) implies version_le(slices_of(out_t)[k]@.version, cv) by {
                            lemma_version_cmp(
                                slices_of(out_t)[k]@.version,
                                out_t[o as int].slice@.version,
                                cv,
                            );
                        }
                    },
                    None => {},
                }
                lemma_version_cmp(cv, cv, cv);
                lemma_remove_contains(pool_t, p as int);
            }
            let dep = pool.remove(p);
            let ghost pool_r = pool@;
            assert(pool@.len() < pool0.len());
            proof {
                lemma_remove_cover(pool_t, p as int);
                lemma_push_contains(stack, slice);
                lemma_push_contains(stack.push(slice), dep);
                assert(pool_t.contains(dep));
                assert(within(pool@, input));
                assert(covered(input, pool@, slices_of(out@), stack.push(slice).push(dep)));
                if acyc {
                    assert(input.contains(dep));
                    assert(is_candidate(dep@, dependency_names_of(slice@)[j as int], st));
                    assert(rank(dep) < rank(slice));
                    assert forall|y: Slice| stack.push(slice).contains(y) implies rank(y) > rank(dep) by {
                        if y != slice {
                            assert(stack.contains(y));
                        }
                    }
                }
            }
            let k = resolve(dep, pool, out, st, zero_v, Ghost(input), Ghost(stack.push(slice)), Ghost(rank), Ghost(acyc));
            proof {
                assert(out@.len() > out_t.len());
                assert(out_t.len() >= n0);
                assert(out@.subrange(0, out_t.len() as int) == out_t);
                assert forall|m: int| 0 <= m < out_t.len() implies #[trigger] out@[m] == out_t[m] by {
                    assert(out@.subrange(0, out_t.len() as int)[m] == out@[m]);
                }
                assert(pool_t.contains(pool_t[p as int]));
                assert forall|m: int| out_t.len() <= m < out@.len() implies pool_t.contains(
                    #[trigger] out@[m].slice,
                ) by {
                    if m < out@.len() - 1 {
                        assert(pool_r.contains(out@[m].slice));
                    }
                }
                assert forall|m: int| n0 <= m < out_t.len() implies pool0.contains(
                    #[trigger] out@[m].slice,
                ) by {
                    assert(out@[m] == out_t[m]);
                    assert(pool0.contains(out_t[m].slice));
                }
                assert forall|m: int| out_t.len() <= m < out@.len() implies pool0.contains(
                    #[trigger] out@[m].slice,
                ) by {
                    assert(pool_t.contains(out@[m].slice));
                }
                assert forall|m: int| n0 <= m < out@.len() implies pool0.contains(
                    #[trigger] out@[m].slice,
                ) by {
                    if m < out_t.len() {
                    } else {
                    }
                }
                assert forall|x: Slice| pool@.contains(x) implies pool_t.contains(x) by {
                    assert(pool_r.contains(x));
                }
                lemma_outs_grow(out_t, out@, pool_t, input);
                let g = choose|g: Seq<int>| embeds(g, pool@, pool_r);
                let h = Seq::new((pool_t.len() - 1) as nat, |m: int| if m < p { m } else { m + 1 });
                lemma_remove_embeds(pool_t, p as int);
                lemma_compose_embeds(h, g, pool@, pool_r, pool_t);
                let gh = Seq::new(g.len(), |m: int| h[g[m]]);
                lemma_compose_embeds(f, gh, pool@, pool_t, pool0);
                f = Seq::new(gh.len(), |m: int| f[gh[m]]);
                if acyc {
                    assert forall|q: int| 0 <= q < j && #[trigger] flags[q] implies bounded_by(
                        input,
                        dv[q],
                        st,
                        out@[found@[q] as int].slice@.version,
                    ) by {
                        assert(out@[found@[q] as int] == out_t[found@[q] as int]);
                    }
                    assert(bounded_by(pool_t, dv[j as int], st, cv));
                    assert(bounded_by(input, dv[j as int], st, cv));
                }
                lemma_grow(out_t, out@, pool_t, pool@, dv[j as int], st, cv);
                assert forall|q: int| 0 <= q < j implies #[trigger] out@[found@[q] as int] == out_t[found@[q] as int]
                    || !flags[q] by {
                    if flags[q] {
                        assert(out@.subrange(0, out_t.len() as int)[found@[q] as int] == out@[found@[q] as int]);
                    }
                }
                assert forall|q: int| 0 <= q < j && #[trigger] flags[q] implies {
                    &&& found@[q] < out@.len()
                    &&& is_candidate(out@[found@[q] as int].slice@, dv[q], st)
                    &&& bounded_by(slices_of(out@), dv[q], st, out@[found@[q] as int].slice@.version)
                    &&& bounded_by(pool@, dv[q], st, out@[found@[q] as int].slice@.version)
                } by {
                    lemma_grow(out_t, out@, pool_t, pool@, dv[q], st, out_t[found@[q] as int].slice@.version);
                    assert(out@[found@[q] as int] == out_t[found@[q] as int]);
                }
                assert forall|q: int| 0 <= q < j && !#[trigger] flags[q] implies !has_candidate(
                    slices_of(out@),
                    dv[q],
                    st,
                ) && !has_candidate(pool@, dv[q], st) by {
                    lemma_grow(out_t, out@, pool_t, pool@, dv[q], st, cv);
                }
                assert forall|q: int| 0 <= q < j implies #[trigger] has_candidate(slices_of(out@), dv[q], st)
                    == has_candidate(slices_of(out_t), dv[q], st) by {
                    lemma_grow(out_t, out@, pool_t, pool@, dv[q], st, cv);
                    if flags[q] {
                        assert(slices_of(out_t)[found@[q] as int] == out_t[found@[q] as int].slice);
                        assert(has_candidate(slices_of(out_t), dv[q], st));
                    }
                }
                assert forall|q: int| 0 <= q < j implies has_candidate(
                    slices_of(out@),
                    #[trigger] dv.subrange(0, j as int)[q],
                    st,
                ) == has_candidate(slices_of(out_t), dv.subrange(0, j as int)[q], st) by {
                    assert(dv.subrange(0, j as int)[q] == dv[q]);
                }
                lemma_missing_congruent(dv.subrange(0, j as int), slices_of(out@), slices_of(out_t), st);
                assert(slices_of(out@)[k as int] == out@[k as int].slice);
                assert(has_candidate(slices_of(out@), dv[j as int], st));
                // multiset bookkeeping
                let seg_t = out_t.subrange(n0, out_t.len() as int);
                let seg_r = out@.subrange(out_t.len() as int, out@.len() as int);
                assert(out@.subrange(n0, out@.len() as int) =~= seg_t + seg_r) by {
                    assert forall|m: int| 0 <= m < out_t.len() - n0 implies #[trigger] seg_t[m] == out@[n0 + m] by {
                        assert(out@[n0 + m] == out_t[n0 + m]);
                    }
                }
                assert(out@.subrange(0, n0) =~= out0) by {
                    assert forall|m: int| 0 <= m < n0 implies #[trigger] out0[m] == out@[m] by {
                        assert(out@[m] == out_t[m]);
                        assert(out_t.subrange(0, n0)[m] == out_t[m]);
                    }
                }
                lemma_slices_of_concat(seg_t, seg_r);
                vstd::seq_lib::lemma_multiset_commutative(slices_of(seg_t), slices_of(seg_r));
                assert(pool_r.to_multiset() == pool_t.to_multiset().remove(pool_t[p as int]));
                assert(pool_t.to_multiset().remove(pool_t[p as int]).insert(pool_t[p as int]) =~= pool_t.to_multiset());
                assert(slices_of(out@.subrange(n0, out@.len() as int)).to_multiset().add(pool@.to_multiset())
                    =~= slices_of(seg_t).to_multiset().add(pool_t.to_multiset()));
            }
            let ghost flags_t = flags;
            let ghost found_t = found@;
            found.push(k);
            proof {
                flags = flags.push(true);
                assert(out@[k as int].slice == pool_t[p as int]);
                assert forall|q: int| 0 <= q < j + 1 && #[trigger] flags[q] implies {
                    &&& found@[q] < out@.len()
                    &&& is_candidate(out@[found@[q] as int].slice@, dv[q], st)
                    &&& bounded_by(slices_of(out@), dv[q], st, out@[found@[q] as int].slice@.version)
                    &&& bounded_by(pool@, dv[q], st, out@[found@[q] as int].slice@.version)
                } by {
                    if q < j {
                        assert(flags_t[q] && found@[q] == found_t[q]);
                    }
                }
                assert forall|q: int| 0 <= q < j + 1 && !#[trigger] flags[q] implies !has_candidate(
                    slices_of(out@),
                    dv[q],
                    st,
                ) && !has_candidate(pool@, dv[q], st) by {
                    assert(!flags_t[q]);
                }
                if acyc {
                    assert forall|q: int| 0 <= q < j + 1 && #[trigger] flags[q] implies bounded_by(
                        input,
                        dv[q],
                        st,
                        out@[found@[q] as int].slice@.version,
                    ) by {
                        if q < j {
                            assert(flags_t[q] && found@[q] == found_t[q]);
                        }
                    }
                    assert forall|q: int| 0 <= q < j + 1 && !#[trigger] flags[q] implies !has_candidate(
                        input,
                        dv[q],
                        st,
                    ) by {
                        assert(!flags_t[q]);
                    }
                }
            }
        } else {
            match bo {
                Some(o) => {
                    proof {
                        match bp {
                            Some(p) => {
                                lemma_version_cmp(pool_t[p as int]@.version, out_t[o as int].slice@.version, pool_t[p as int]@.version);
                                assert forall|k: int|
                                    0 <= k < pool_t.len() && is_candidate(
                                        #[trigger] pool_t[k]@,
                                        dv[j as int],
                                        st,
                                    ) implies version_le(pool_t[k]@.version, out_t[o as int].slice@.version) by {
                                    lemma_version_cmp(
                                        pool_t[k]@.version,
                                        pool_t[p as int]@.version,
                                        out_t[o as int].slice@.version,
                                    );
                                }
                            },
                            None => {},
                        }
                        assert(slices_of(out@)[o as int] == out@[o as int].slice);
                    }
                    let ghost flags_t = flags;
                    let ghost found_t = found@;
                    found.push(o);
                    proof {
                        flags = flags.push(true);
                        assert(bounded_by(pool@, dv[j as int], st, out@[o as int].slice@.version));
                        assert(bounded_by(slices_of(out@), dv[j as int], st, out@[o as int].slice@.version));
                        if acyc {
                            assert(bounded_by(input, dv[j as int], st, out@[o as int].slice@.version));
                            assert forall|q: int| 0 <= q < j + 1 && #[trigger] flags[q] implies bounded_by(
                                input,
                                dv[q],
                                st,
                                out@[found@[q] as int].slice@.version,
                            ) by {
                                if q < j {
                                    assert(flags_t[q] && found@[q] == found_t[q]);
                                }
                            }
                            assert forall|q: int| 0 <= q < j + 1 && !#[trigger] flags[q] implies !has_candidate(
                                input,
                                dv[q],
                                st,
                            ) by {
                                assert(!flags_t[q]);
                            }
                        }
                    }
                },
                None => {
                    let ghost flags_t = flags;
                    let ghost found_t = found@;
                    let ghost old_missing = missing@;
                    missing.push(deps[j].clone());
                    assert(texts_view(missing@) =~= texts_view(old_missing).push(dv[j as int]));
                    found.push(0);
                    proof {
                        flags = flags.push(false);
                        if acyc {
                            assert(!has_candidate(input, dv[j as int], st));
                            assert forall|q: int| 0 <= q < j + 1 && #[trigger] flags[q] implies bounded_by(
                                input,
                                dv[q],
                                st,
                                out@[found@[q] as int].slice@.version,
                            ) by {
                                assert(q < j);
                                assert(flags_t[q] && found@[q] == found_t[q]);
                            }
                            assert forall|q: int| 0 <= q < j + 1 && !#[trigger] flags[q] implies !has_candidate(
                                input,
                                dv[q],
                                st,
                            ) by {
                                if q < j {
                                    assert(!flags_t[q]);
                                }
                            }
                        }
                    }
                },
            }
        }
        assert(dv.subrange(0, j + 1).last() == dv[j as int]);
        j = j + 1;
    }
    assert(dv.subrange(0, j as int) =~= dv);
    let ghost out_f = out@;
    let dependencies = if missing.len() == 0 {
        proof {
            lemma_missing_empty(dv, slices_of(out_f), st);
            assert forall|q: int| 0 <= q < dv.len() implies #[trigger] flags[q] by {
                assert(has_candidate(slices_of(out_f), dv[q], st));
            }
        }
        Dependencies::Resolved(found)
    } else {
        Dependencies::Unresolved(missing)
    };
    let i = out.len();
    let entry = DependentSlice { slice, dependencies };
    let ghost e = entry;
    out.push(entry);
    proof {
        assert(entries_view(out@) =~= entries_view(out_f).push(entry_view(e)));
        assert(texts_view(missing@).len() == missing@.len());
        assert(out@.subrange(0, i as int) =~= out_f);
        assert(out@[i as int] == e);
        assert(last_entry_wf(out@, st)) by {
            match e.dependencies {
                Dependencies::Resolved(ix) => {
                    assert forall|q: int| 0 <= q < dv.len() implies {
                        &&& #[trigger] ix@[q] < i
                        &&& is_candidate(out@[ix@[q] as int].slice@, dv[q], st)
                        &&& bounded_by(slices_of(out_f), dv[q], st, out@[ix@[q] as int].slice@.version)
                    } by {
                        assert(flags[q]);
                        assert(out@[ix@[q] as int] == out_f[ix@[q] as int]);
                    }
                },
                Dependencies::Unresolved(ms) => {},
            }
        }
        assert(out_f.push(e) == out@);
        lemma_extend_wf(out_f, e, st);
        lemma_push_contains(slices_of(out_f), e.slice);
        assert(slices_of(out@) =~= slices_of(out_f).push(e.slice));
        lemma_push_contains(stack, slice);
        assert(covered(input, pool@, slices_of(out@), stack));
        if acyc {
            assert forall|q: int| 0 <= q < dv.len() implies #[trigger] has_candidate(input, dv[q], st)
                == has_candidate(slices_of(out_f), dv[q], st) by {
                if flags[q] {
                    assert(slices_of(out_f)[found@[q] as int] == out_f[found@[q] as int].slice);
                    assert(slices_of(out_f).contains(out_f[found@[q] as int].slice));
                    let c = out_f[found@[q] as int].slice;
                    let k = choose|k: int| 0 <= k < input.len() && input[k] == c;
                    assert(is_candidate(input[k]@, dv[q], st));
                }
            }
            lemma_missing_congruent(dv, input, slices_of(out_f), st);
            assert(last_entry_global(out@, input, st)) by {
                match e.dependencies {
                    Dependencies::Resolved(ix) => {
                        assert forall|q: int| 0 <= q < dv.len() implies #[trigger] ix@[q] < i && bounded_by(
                            input,
                            dv[q],
                            st,
                            out@[ix@[q] as int].slice@.version,
                        ) by {
                            assert(flags[q]);
                            assert(out@[ix@[q] as int] == out_f[ix@[q] as int]);
                        }
                    },
                    Dependencies::Unresolved(ms) => {},
                }
            }
            lemma_extend_global(out_f, e, input, st);
        }
        assert(out@.subrange(0, n0) =~= out_f.subrange(0, n0));
        let seg_f = out_f.subrange(n0, out_f.len() as int);
        assert(out@.subrange(n0, out@.len() as int) =~= seg_f.push(e));
        assert(slices_of(seg_f.push(e)) =~= slices_of(seg_f).push(e.slice));
        assert(slices_of(out@.subrange(n0, out@.len() as int)).to_multiset().add(pool@.to_multiset())
            =~= pool0.to_multiset().insert(slice));
        assert forall|k: int| n0 <= k < out@.len() - 1 implies pool0.contains(#[trigger] out@[k].slice) by {
            assert(out@[k] == out_f[k]);
        }
    }
    i
}

/// The resolved catalog: every slice of the catalog once, each after the
/// slices it was resolved to.
pub struct List {
    pub slices: Vec<DependentSlice>,
    pub strategy: VersionMatchStrategy,
}

impl List {
    /// The entries agree with one another (see `entries_wf`).
    pub open spec fn wf(&self) -> bool {
        entries_wf(self.slices@, self.strategy)
    }

    /// Resolves a catalog into the entries of `resolution_of`, in the order
    /// construction places them. Slices are taken from the front; each
    /// dependency is the candidate of the highest version among the slices not
    /// yet resolved and those already resolved (a resolved one wins a tie); one
    /// that has no candidate is recorded as missing. Where the catalog has no
    /// dependency cycle, a dependency is missing exactly when no slice of the
    /// catalog is a candidate for it, and each chosen one ranks highest among
    /// all of them. (With a cycle, a slice still being resolved cannot serve as
    /// a dependency of its own dependencies, and is reported missing there.)
    pub fn from_slices(slices: Vec<Slice>, strategy: VersionMatchStrategy) -> (r: List)
        ensures
            r.wf(),
            r.strategy == strategy,
            slices_of(r.slices@).to_multiset() == slices@.to_multiset(),
            acyclic(slices@, strategy) ==> entries_global(r.slices@, slices@, strategy),
            entries_view(r.slices@) == resolution_of(slices@, strategy),
    {
        let zero_v = zero();
        let ghost all = slices@;
        let ghost acyc = acyclic(all, strategy);
        let ghost rank: spec_fn(Slice) -> nat = if acyc {
            choose|rank: spec_fn(Slice) -> nat| ranked(all, strategy, rank)
        } else {
            |x: Slice| 0nat
        };
        let ghost empty = Seq::<Slice>::empty();
        let mut pool = slices;
        let mut out: Vec<DependentSlice> = Vec::new();
        assert(slices_of(out@) =~= Seq::<Slice>::empty());
        assert(entries_global(out@, all, strategy));
        assert(entries_view(out@) =~= Seq::<(Slice, DependenciesView)>::empty());
        assert(out@.subrange(0, 0) =~= out@);
        while pool.len() > 0
            invariant
                zero_v@ == zero_view(),
                entries_wf(out@, strategy),
                slices_of(out@).to_multiset().add(pool@.to_multiset()) == all.to_multiset(),
                all == slices@,
                within(pool@, all),
                within(slices_of(out@), all),
                covered(all, pool@, slices_of(out@), empty),
                empty == Seq::<Slice>::empty(),
                acyc == acyclic(all, strategy),
                acyc ==> ranked(all, strategy, rank),
                acyc ==> entries_global(out@, all, strategy),
                resolution_of(all, strategy) == resolve_all(pool@, entries_view(out@), strategy),
            decreases pool@.len(),
        {
            let ghost out_t = out@;
            let ghost pool_t = pool@;
            let s = pool.remove(0);
            let ghost pool_r = pool@;
            proof {
                lemma_remove_cover(pool_t, 0);
                lemma_remove_contains(pool_t, 0);
                lemma_push_contains(empty, s);
                assert(pool_t.contains(s));
            }
            resolve(s, &mut pool, &mut out, strategy, &zero_v, Ghost(all), Ghost(empty), Ghost(rank), Ghost(acyc));
            proof {
                let seg = out@.subrange(out_t.len() as int, out@.len() as int);
                assert(out@ =~= out@.subrange(0, out_t.len() as int) + seg);
                lemma_slices_of_concat(out_t, seg);
                vstd::seq_lib::lemma_multiset_commutative(slices_of(out_t), slices_of(seg));
                assert(pool_r.to_multiset() == pool_t.to_multiset().remove(pool_t[0]));
                assert(pool_t.to_multiset().remove(pool_t[0]).insert(pool_t[0]) =~= pool_t.to_multiset());
                assert(slices_of(out@).to_multiset().add(pool@.to_multiset()) =~= slices_of(out_t).to_multiset().add(pool_t.to_multiset()));
                assert(slices_of(seg).to_multiset().len() >= 1);
            }
        }
        assert(pool@.to_multiset() =~= Multiset::<Slice>::empty());
        assert(slices_of(out@).to_multiset().add(Multiset::<Slice>::empty()) =~= slices_of(out@).to_multiset());
        List { slices: out, strategy }
    }
}

impl DependentSlice {
    /// Whether some dependency names were found nowhere.
    pub fn has_unresolved_dependencies(&self) -> (r: bool)
        ensures
            r == self.dependencies is Unresolved,
    {
        match &self.dependencies {
            Dependencies::Unresolved(_) => true,
            Dependencies::Resolved(_) => false,
        }
    }

    /// The slice itself.
    pub fn content(&self) -> (r: &Slice)
        ensures
            *r == self.slice,
    {
        &self.slice
    }

    /// The entries this one was resolved to (none where some are missing).
    pub fn resolved_dependencies(&self) -> (r: &[usize])
        ensures
            self.dependencies matches Dependencies::Resolved(ix) ==> r@ == ix@,
            self.dependencies is Unresolved ==> r@.len() == 0,
    {
        match &self.dependencies {
            Dependencies::Resolved(ix) => ix.as_slice(),
            Dependencies::Unresolved(_) => &[],
        }
    }

    /// The dependency names found nowhere (none where all were found).
    pub fn unresolved_dependencies(&self) -> (r: &[String])
        ensures
            r@ == own_missing_texts(*self),
    {
        match &self.dependencies {
            Dependencies::Unresolved(ms) => ms.as_slice(),
            Dependencies::Resolved(_) => &[],
        }
    }
}

pub open spec fn own_missing_texts(e: DependentSlice) -> Seq<String> {
    match e.dependencies {
        Dependencies::Unresolved(ms) => ms@,
        Dependencies::Resolved(_) => Seq::empty(),
    }
}

/// The dependency names an entry records as missing.
pub open spec fn own_missing(e: DependentSlice) -> Seq<Seq<char>> {
    texts_view(own_missing_texts(e))
}

/// The missing names of all entries, entry after entry.
pub open spec fn all_missing(es: Seq<DependentSlice>) -> Seq<Seq<char>>
    decreases es.len(),
{
    if es.len() == 0 {
        Seq::empty()
    } else {
        all_missing(es.drop_last()) + own_missing(es.last())
    }
}

/// The first occurrence of each text, in order.
pub open spec fn distinct_in_order(s: Seq<Seq<char>>) -> Seq<Seq<char>>
    decreases s.len(),
{
    if s.len() == 0 {
        s
    } else {
        let d = distinct_in_order(s.drop_last());
        if d.contains(s.last()) {
            d
        } else {
            d.push(s.last())
        }
    }
}

/// Whether a slice answers a request for `name` at `version` under `st`.
pub open spec fn answers_request(
    s: SliceView,
    name: Seq<char>,
    version: VersionView,
    st: VersionMatchStrategy,
) -> bool {
    s.name == name && strategy_matches(s.version, version, st)
}

/// The entry that answers a request: of those that do, one of the highest
/// version, the last of them where several rank equal.
pub open spec fn found_index(
    xs: Seq<Slice>,
    name: Seq<char>,
    version: VersionView,
    st: VersionMatchStrategy,
) -> Option<int>
    decreases xs.len(),
{
    if xs.len() == 0 {
        None
    } else {
        let b = found_index(xs.drop_last(), name, version, st);
        if answers_request(xs.last()@, name, version, st) && (b is None || !version_lt(
            xs.last()@.version,
            xs[b->0]@.version,
        )) {
            Some(xs.len() - 1)
        } else {
            b
        }
    }
}

proof fn lemma_found_index_bounds(
    xs: Seq<Slice>,
    name: Seq<char>,
    version: VersionView,
    st: VersionMatchStrategy,
)
    ensures
        found_index(xs, name, version, st) matches Some(k) ==> 0 <= k < xs.len(),
    decreases xs.len(),
{
    if xs.len() > 0 {
        lemma_found_index_bounds(xs.drop_last(), name, version, st);
    }
}

/// The entry that `found_index` picks answers the request, ranks at least as
/// high as every entry that does, and strictly higher than those after it;
/// where none answers, there is none.
pub proof fn lemma_found_index_is_latest(
    xs: Seq<Slice>,
    name: Seq<char>,
    version: VersionView,
    st: VersionMatchStrategy,
)
    ensures
        found_index(xs, name, version, st) is None ==> forall|q: int|
            0 <= q < xs.len() ==> !answers_request(#[trigger] xs[q]@, name, version, st),
        found_index(xs, name, version, st) matches Some(k) ==> {
            &&& 0 <= k < xs.len()
            &&& answers_request(xs[k]@, name, version, st)
            &&& forall|q: int|
                0 <= q < xs.len() && answers_request(#[trigger] xs[q]@, name, version, st)
                    ==> version_le(xs[q]@.version, xs[k]@.version)
            &&& forall|q: int|
                k < q < xs.len() && answers_request(#[trigger] xs[q]@, name, version, st)
                    ==> version_lt(xs[q]@.version, xs[k]@.version)
        },
    decreases xs.len(),
{
    if xs.len() > 0 {
        let ys = xs.drop_last();
        lemma_found_index_is_latest(ys, name, version, st);
        lemma_found_index_bounds(ys, name, version, st);
        let last = xs.last();
        assert forall|q: int| 0 <= q < ys.len() implies #[trigger] ys[q] == xs[q] by {}
        match found_index(ys, name, version, st) {
            Some(b) => {
                lemma_version_cmp(last@.version, xs[b]@.version, last@.version);
                assert forall|q: int|
                    0 <= q < xs.len() && answers_request(#[trigger] xs[q]@, name, version, st) implies version_le(
                    xs[q]@.version,
                    xs[found_index(xs, name, version, st)->0]@.version,
                ) by {
                    lemma_version_cmp(xs[q]@.version, xs[b]@.version, last@.version);
                    lemma_version_cmp(xs[q]@.version, xs[q]@.version, xs[q]@.version);
                    if q < ys.len() {
                        assert(ys[q] == xs[q]);
                    }
                }
                assert forall|q: int|
                    found_index(xs, name, version, st)->0 < q < xs.len() && answers_request(
                        #[trigger] xs[q]@,
                        name,
                        version,
                        st,
                    ) implies version_lt(xs[q]@.version, xs[found_index(xs, name, version, st)->0]@.version) by {
                    if q < ys.len() {
                        assert(ys[q] == xs[q]);
                    }
                }
            },
            None => {
                lemma_version_cmp(last@.version, last@.version, last@.version);
                assert forall|q: int|
                    0 <= q < xs.len() && answers_request(#[trigger] xs[q]@, name, version, st) implies q
                    == xs.len() - 1 by {
                    if q < ys.len() {
                        assert(ys[q] == xs[q]);
                    }
                }
            },
        }
    }
}

/// Entry `k` is a latest answer to a request: it answers it, ranks at least as
/// high as every entry that does, and strictly higher than those after it.
pub open spec fn is_latest_answer(
    xs: Seq<Slice>,
    k: int,
    name: Seq<char>,
    version: VersionView,
    st: VersionMatchStrategy,
) -> bool {
    &&& 0 <= k < xs.len()
    &&& answers_request(xs[k]@, name, version, st)
    &&& forall|q: int|
        0 <= q < xs.len() && answers_request(#[trigger] xs[q]@, name, version, st) ==> version_le(
            xs[q]@.version,
            xs[k]@.version,
        )
    &&& forall|q: int|
        k < q < xs.len() && answers_request(#[trigger] xs[q]@, name, version, st) ==> version_lt(
            xs[q]@.version,
            xs[k]@.version,
        )
}

/// A lookup has one answer: at most one entry is a latest answer to a given
/// request, so repeating `find_slice` with the same arguments on the same list
/// gives the same entry.
pub proof fn lemma_find_slice_repeatable(
    list: &List,
    name: Seq<char>,
    version: VersionView,
    strategy: VersionMatchStrategy,
    k1: int,
    k2: int,
)
    requires
        is_latest_answer(slices_of(list.slices@), k1, name, version, strategy),
        is_latest_answer(slices_of(list.slices@), k2, name, version, strategy),
    ensures
        k1 == k2,
        found_index(slices_of(list.slices@), name, version, strategy) == Some(k1),
{
    let xs = slices_of(list.slices@);
    if k1 < k2 {
        lemma_version_cmp(xs[k2]@.version, xs[k1]@.version, xs[k2]@.version);
    } else if k2 < k1 {
        lemma_version_cmp(xs[k1]@.version, xs[k2]@.version, xs[k1]@.version);
    }
    lemma_found_index_is_latest(xs, name, version, strategy);
    match found_index(xs, name, version, strategy) {
        Some(k) => {
            if k < k1 {
                lemma_version_cmp(xs[k1]@.version, xs[k]@.version, xs[k1]@.version);
            } else if k1 < k {
                lemma_version_cmp(xs[k]@.version, xs[k1]@.version, xs[k]@.version);
            }
        },
        None => {},
    }
}

impl List {
    /// The index of the entry that answers a request (see `found_index`).
    pub fn find_slice_index(&self, name: &str, version: &Version, strategy: VersionMatchStrategy) -> (r:
        Option<usize>)
        ensures
            r matches Some(k) ==> found_index(slices_of(self.slices@), name@, version@, strategy)
                == Some(k as int),
            r is None ==> found_index(slices_of(self.slices@), name@, version@, strategy) is None,
    {
        let ghost xs = slices_of(self.slices@);
        let mut best: Option<usize> = None;
        let mut i: usize = 0;
        while i < self.slices.len()
            invariant
                xs == slices_of(self.slices@),
                i <= xs.len(),
                best matches Some(b) ==> found_index(xs.subrange(0, i as int), name@, version@, strategy)
                    == Some(b as int),
                best is None ==> found_index(xs.subrange(0, i as int), name@, version@, strategy) is None,
            decreases self.slices.len() - i,
        {
            let ghost pre = xs.subrange(0, i + 1);
            assert(pre.drop_last() =~= xs.subrange(0, i as int));
            assert(pre.last() == self.slices@[i as int].slice);
            proof {
                lemma_found_index_bounds(xs.subrange(0, i as int), name@, version@, strategy);
            }
            let s = &self.slices[i].slice;
            if texts_equal(s.name.as_str(), name) && strategy.matches(&s.version, version) {
                match best {
                    None => {
                        best = Some(i);
                    },
                    Some(b) => {
                        assert(pre[b as int] == self.slices@[b as int].slice);
                        if !s.version.is_less_than(&self.slices[b].slice.version) {
                            best = Some(i);
                        }
                    },
                }
            }
            i = i + 1;
        }
        assert(xs.subrange(0, i as int) =~= xs);
        best
    }

    /// The slice that answers a request: of those with this name whose version
    /// satisfies `strategy` against `version`, one of the highest version.
    pub fn find_slice(&self, name: &str, version: &Version, strategy: VersionMatchStrategy) -> (r:
        Option<&Slice>)
        ensures
            r is Some == found_index(slices_of(self.slices@), name@, version@, strategy) is Some,
            r matches Some(s) ==> *s == self.slices@[found_index(
                slices_of(self.slices@),
                name@,
                version@,
                strategy,
            )->0].slice,
    {
        match self.find_slice_index(name, version, strategy) {
            Some(k) => {
                proof {
                    lemma_found_index_bounds(slices_of(self.slices@), name@, version@, strategy);
                }
                Some(&self.slices[k].slice)
            },
            None => None,
        }
    }

    /// The indices of the entries whose name contains `name`, in list order.
    pub fn find_similar_slices(&self, name: &str) -> (r: Vec<usize>)
        ensures
            forall|k: int| 0 <= k < r@.len() ==> r@[k] < self.slices@.len(),
            forall|k: int, l: int| 0 <= k < l < r@.len() ==> r@[k] < r@[l],
            forall|q: int|
                0 <= q < self.slices@.len() ==> (r@.contains(q as usize) <==> contains_text(
                    self.slices@[q].slice.name@,
                    name@,
                )),
    {
        let mut r: Vec<usize> = Vec::new();
        let mut i: usize = 0;
        while i < self.slices.len()
            invariant
                i <= self.slices@.len(),
                forall|k: int| 0 <= k < r@.len() ==> r@[k] < i,
                forall|k: int, l: int| 0 <= k < l < r@.len() ==> r@[k] < r@[l],
                forall|q: int|
                    0 <= q < i ==> (r@.contains(q as usize) <==> contains_text(
                        self.slices@[q].slice.name@,
                        name@,
                    )),
            decreases self.slices.len() - i,
        {
            let ghost old_r = r@;
            if text_contains(self.slices[i].slice.name.as_str(), name) {
                r.push(i);
                assert(r@[r@.len() - 1] == i);
                assert forall|q: int| 0 <= q < i + 1 implies (r@.contains(q as usize) <==> contains_text(
                    self.slices@[q].slice.name@,
                    name@,
                )) by {
                    if r@.contains(q as usize) && q < i {
                        let k = choose|k: int| 0 <= k < r@.len() && r@[k] == q as usize;
                        assert(old_r[k] == q as usize);
                    }
                    if q < i && old_r.contains(q as usize) {
                        let k = choose|k: int| 0 <= k < old_r.len() && old_r[k] == q as usize;
                        assert(r@[k] == q as usize);
                    }
                }
            } else {
                assert(!r@.contains(i));
            }
            i = i + 1;
        }
        r
    }

    /// Every dependency name that some entry records as missing, once each, in
    /// the order in which they first occur.
    pub fn unresolved_dependencies(&self) -> (r: Vec<String>)
        ensures
            texts_view(r@) == distinct_in_order(all_missing(self.slices@)),
    {
        let ghost es = self.slices@;
        let mut r: Vec<String> = Vec::new();
        let mut i: usize = 0;
        assert(texts_view(r@) =~= distinct_in_order(all_missing(es.subrange(0, 0))));
        while i < self.slices.len()
            invariant
                es == self.slices@,
                i <= es.len(),
                texts_view(r@) == distinct_in_order(all_missing(es.subrange(0, i as int))),
            decreases self.slices.len() - i,
        {
            let ms = self.slices[i].unresolved_dependencies();
            let ghost base = all_missing(es.subrange(0, i as int));
            let mut k: usize = 0;
            assert(base + own_missing(es[i as int]).subrange(0, 0) =~= base);
            while k < ms.len()
                invariant
                    es == self.slices@,
                    i < es.len(),
                    ms@ == own_missing_texts(es[i as int]),
                    k <= ms@.len(),
                    base == all_missing(es.subrange(0, i as int)),
                    texts_view(r@) == distinct_in_order(
                        base + own_missing(es[i as int]).subrange(0, k as int),
                    ),
                decreases ms.len() - k,
            {
                let ghost cur = base + own_missing(es[i as int]).subrange(0, k as int);
                let ghost next = base + own_missing(es[i as int]).subrange(0, k + 1);
                assert(next.drop_last() =~= cur);
                assert(next.last() == ms@[k as int]@);
                if !texts_contain(&r, &ms[k]) {
                    r.push(ms[k].clone());
                    assert(texts_view(r@) =~= distinct_in_order(cur).push(ms@[k as int]@));
                }
                k = k + 1;
            }
            assert(own_missing(es[i as int]).subrange(0, k as int) =~= own_missing(es[i as int]));
            assert(es.subrange(0, i + 1).drop_last() =~= es.subrange(0, i as int));
            i = i + 1;
        }
        assert(es.subrange(0, i as int) =~= es);
        r
    }
}

proof fn lemma_missing_none(ds: Seq<Seq<char>>, xs: Seq<Slice>, st: VersionMatchStrategy)
    requires
        forall|k: int| 0 <= k < ds.len() ==> has_candidate(xs, #[trigger] ds[k], st),
    ensures
        missing_names(ds, xs, st).len() == 0,
    decreases ds.len(),
{
    if ds.len() > 0 {
        assert(has_candidate(xs, ds[ds.len() - 1], st));
        assert forall|k: int| 0 <= k < ds.drop_last().len() implies has_candidate(
            xs,
            #[trigger] ds.drop_last()[k],
            st,
        ) by {
            assert(ds.drop_last()[k] == ds[k]);
        }
        lemma_missing_none(ds.drop_last(), xs, st);
    }
}

/// Each entry of a resolved list is in exactly one of two states: complete,
/// where every dependency was found among the entries before it, or missing
/// dependencies, where it records a non-empty list of names, exactly those
/// for which no earlier entry is a candidate.
pub proof fn lemma_entry_state(list: &List, i: int)
    requires
        list.wf(),
        0 <= i < list.slices@.len(),
    ensures
        (list.slices@[i].dependencies is Resolved) != (list.slices@[i].dependencies is Unresolved),
        list.slices@[i].dependencies is Resolved <==> missing_names(
            dependency_names_of(list.slices@[i].slice@),
            slices_of(list.slices@.subrange(0, i)),
            list.strategy,
        ).len() == 0,
        list.slices@[i].dependencies is Unresolved <==> own_missing(list.slices@[i]).len() > 0,
        list.slices@[i].dependencies is Unresolved ==> own_missing(list.slices@[i]) == missing_names(
            dependency_names_of(list.slices@[i].slice@),
            slices_of(list.slices@.subrange(0, i)),
            list.strategy,
        ),
{
    let es = list.slices@;
    let st = list.strategy;
    let p = es.subrange(0, i + 1);
    assert(last_entry_wf(p, st));
    assert(p[i] == es[i]);
    assert(p.subrange(0, i) =~= es.subrange(0, i));
    let before = slices_of(es.subrange(0, i));
    let deps = dependency_names_of(es[i].slice@);
    match es[i].dependencies {
        Dependencies::Resolved(ix) => {
            assert forall|k: int| 0 <= k < deps.len() implies has_candidate(before, #[trigger] deps[k], st) by {
                assert(ix@[k] < i);
                assert(before[ix@[k] as int] == p[ix@[k] as int].slice);
            }
            lemma_missing_none(deps, before, st);
        },
        Dependencies::Unresolved(ms) => {},
    }
}

/// Where the entries agree with the whole input (as `List::from_slices`
/// promises for a catalog without dependency cycles), an entry is complete
/// exactly when every name it depends on has a candidate somewhere in the
/// input; otherwise it records, non-empty and in order, exactly the names that
/// have none.
pub proof fn lemma_complete_iff_found(list: &List, input: Seq<Slice>, i: int)
    requires
        list.wf(),
        entries_global(list.slices@, input, list.strategy),
        0 <= i < list.slices@.len(),
    ensures
        list.slices@[i].dependencies is Resolved <==> forall|k: int|
            0 <= k < dependency_names_of(list.slices@[i].slice@).len() ==> has_candidate(
                input,
                #[trigger] dependency_names_of(list.slices@[i].slice@)[k],
                list.strategy,
            ),
        list.slices@[i].dependencies is Unresolved ==> own_missing(list.slices@[i]) == missing_names(
            dependency_names_of(list.slices@[i].slice@),
            input,
            list.strategy,
        ) && own_missing(list.slices@[i]).len() > 0,
{
    let es = list.slices@;
    let st = list.strategy;
    let p = es.subrange(0, i + 1);
    assert(last_entry_global(p, input, st));
    assert(last_entry_wf(p, st));
    assert(p[i] == es[i]);
    let deps = dependency_names_of(es[i].slice@);
    match es[i].dependencies {
        Dependencies::Resolved(ix) => {
            lemma_missing_empty(deps, input, st);
        },
        Dependencies::Unresolved(ms) => {
            if forall|k: int| 0 <= k < deps.len() ==> has_candidate(input, #[trigger] deps[k], st) {
                lemma_missing_none(deps, input, st);
            }
        },
    }
}

} // verus!
