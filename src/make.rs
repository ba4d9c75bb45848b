//! Turning requested slices into one script: dependencies first, each slice once.
use crate::formatters::{generate_code, slice_code};
use crate::list::{entries_wf, found_index, own_missing, slices_of, Dependencies, DependentSlice, List};
use crate::text::texts_view;
use crate::VersionMatchStrategy;
use crate::options::Format;
use crate::RequestedSlice;
use vstd::prelude::*;

verus! {

/// Whether entry `i`, or an entry it reaches through resolved dependencies,
/// records missing dependency names.
pub open spec fn blocked(es: Seq<DependentSlice>, i: int) -> bool
    decreases i, 1int, 0int,
{
    if i < 0 || i >= es.len() {
        false
    } else {
        match es[i].dependencies {
            Dependencies::Unresolved(_) => true,
            Dependencies::Resolved(ix) => any_blocked(es, i, ix@, ix@.len() as int),
        }
    }
}

/// Whether one of the first `n` of the dependencies `ix` of entry `i` is blocked.
pub open spec fn any_blocked(es: Seq<DependentSlice>, i: int, ix: Seq<usize>, n: int) -> bool
    decreases i, 0int, n,
{
    if n <= 0 || n > ix.len() {
        false
    } else {
        any_blocked(es, i, ix, n - 1) || (0 <= ix[n - 1] < i && blocked(es, ix[n - 1] as int))
    }
}

/// Whether entry `q` is entry `i` or lies below it through resolved dependencies.
pub open spec fn below(es: Seq<DependentSlice>, i: int, q: int) -> bool
    decreases i, 1int, 0int,
{
    if i < 0 || i >= es.len() {
        false
    } else if q == i {
        true
    } else {
        match es[i].dependencies {
            Dependencies::Unresolved(_) => false,
            Dependencies::Resolved(ix) => any_below(es, i, ix@, ix@.len() as int, q),
        }
    }
}

/// Whether `q` lies below one of the first `n` of the dependencies `ix` of entry `i`.
pub open spec fn any_below(es: Seq<DependentSlice>, i: int, ix: Seq<usize>, n: int, q: int) -> bool
    decreases i, 0int, n,
{
    if n <= 0 || n > ix.len() {
        false
    } else {
        any_below(es, i, ix, n - 1, q) || (0 <= ix[n - 1] < i && below(es, ix[n - 1] as int, q))
    }
}

proof fn lemma_any_below(es: Seq<DependentSlice>, i: int, ix: Seq<usize>, n: int, j: int, q: int)
    requires
        0 <= j < n <= ix.len(),
        0 <= ix[j] < i,
        below(es, ix[j] as int, q),
    ensures
        any_below(es, i, ix, n, q),
    decreases n,
{
    if j < n - 1 {
        lemma_any_below(es, i, ix, n - 1, j, q);
    }
}

/// Whether `q` lies below one of `roots`.
pub open spec fn below_roots(es: Seq<DependentSlice>, roots: Seq<usize>, q: int) -> bool {
    exists|m: int| 0 <= m < roots.len() && #[trigger] below(es, roots[m] as int, q)
}

/// For each entry, whether it is blocked.
pub fn blocked_entries(es: &Vec<DependentSlice>) -> (r: Vec<bool>)
    ensures
        r@.len() == es@.len(),
        forall|i: int| 0 <= i < es@.len() ==> r@[i] == blocked(es@, i),
{
    let mut r: Vec<bool> = Vec::new();
    let mut i: usize = 0;
    while i < es.len()
        invariant
            i <= es@.len(),
            r@.len() == i,
            forall|k: int| 0 <= k < i ==> r@[k] == blocked(es@, k),
        decreases es.len() - i,
    {
        let b = match &es[i].dependencies {
            Dependencies::Unresolved(_) => {
                assert(blocked(es@, i as int));
                true
            },
            Dependencies::Resolved(ix) => {
                let mut found = false;
                let mut j: usize = 0;
                while j < ix.len()
                    invariant
                        i < es@.len(),
                        r@.len() == i,
                        forall|k: int| 0 <= k < i ==> r@[k] == blocked(es@, k),
                        es@[i as int].dependencies == Dependencies::Resolved(*ix),
                        j <= ix@.len(),
                        found == any_blocked(es@, i as int, ix@, j as int),
                    decreases ix.len() - j,
                {
                    if ix[j] < i && r[ix[j]] {
                        found = true;
                    }
                    j = j + 1;
                }
                assert(found == blocked(es@, i as int));
                found
            },
        };
        assert(b == blocked(es@, i as int));
        r.push(b);
        i = i + 1;
    }
    r
}

/// The state of a post-order walk: `order` holds each visited entry once, and
/// each entry in it comes after the entries it was resolved to.
pub open spec fn walk_ok(es: Seq<DependentSlice>, visited: Seq<bool>, order: Seq<usize>) -> bool {
    &&& visited.len() == es.len()
    &&& forall|k: int| 0 <= k < order.len() ==> order[k] < es.len() && visited[order[k] as int]
    &&& forall|q: int| 0 <= q < es.len() && visited[q] ==> order.contains(q as usize)
    &&& forall|a: int, b: int| 0 <= a < b < order.len() ==> order[a] != order[b]
    &&& forall|k: int| 0 <= k < order.len() ==> #[trigger] deps_before(es, order, k)
}

/// `d` stands in `order` before position `k`.
pub open spec fn placed_before(order: Seq<usize>, d: usize, k: int) -> bool {
    exists|a: int| 0 <= a < k && order[a] == d
}

/// The entries that the entry at position `k` of `order` was resolved to stand
/// before it.
pub open spec fn deps_before(es: Seq<DependentSlice>, order: Seq<usize>, k: int) -> bool {
    match es[order[k] as int].dependencies {
        Dependencies::Resolved(ix) => forall|j: int|
            0 <= j < ix@.len() && ix@[j] < order[k] ==> placed_before(order, #[trigger] ix@[j], k),
        Dependencies::Unresolved(_) => true,
    }
}

/// The depth-first walk from entry `i`: where `i` is not yet visited, its
/// dependencies are walked in order, then `i` is marked and appended.
pub open spec fn walk(es: Seq<DependentSlice>, i: int, vis: Seq<bool>, ord: Seq<usize>) -> (Seq<bool>, Seq<usize>)
    decreases i, 1int, 0int,
{
    if i < 0 || i >= es.len() || i >= vis.len() || vis[i] {
        (vis, ord)
    } else {
        let (v2, o2) = match es[i].dependencies {
            Dependencies::Resolved(ix) => walk_deps(es, i, ix@, ix@.len() as int, vis, ord),
            Dependencies::Unresolved(_) => (vis, ord),
        };
        (v2.update(i, true), o2.push(i as usize))
    }
}

/// The walk over the first `n` dependencies `ix` of entry `i`, in order.
pub open spec fn walk_deps(
    es: Seq<DependentSlice>,
    i: int,
    ix: Seq<usize>,
    n: int,
    vis: Seq<bool>,
    ord: Seq<usize>,
) -> (Seq<bool>, Seq<usize>)
    decreases i, 0int, n,
{
    if n <= 0 || n > ix.len() {
        (vis, ord)
    } else {
        let (v1, o1) = walk_deps(es, i, ix, n - 1, vis, ord);
        if 0 <= ix[n - 1] < i {
            walk(es, ix[n - 1] as int, v1, o1)
        } else {
            (v1, o1)
        }
    }
}

/// The walk from the first `n` roots, one after another.
pub open spec fn walk_roots(
    es: Seq<DependentSlice>,
    roots: Seq<usize>,
    n: int,
    vis: Seq<bool>,
    ord: Seq<usize>,
) -> (Seq<bool>, Seq<usize>)
    decreases n,
{
    if n <= 0 || n > roots.len() {
        (vis, ord)
    } else {
        let (v1, o1) = walk_roots(es, roots, n - 1, vis, ord);
        walk(es, roots[n - 1] as int, v1, o1)
    }
}

/// The order in which the script writes the entries below `roots`: the
/// depth-first post-order from each root in turn, each entry at its first visit.
pub open spec fn emitted(es: Seq<DependentSlice>, roots: Seq<usize>) -> Seq<usize> {
    walk_roots(es, roots, roots.len() as int, Seq::new(es.len(), |k: int| false), Seq::empty()).1
}

fn visit(es: &Vec<DependentSlice>, i: usize, visited: &mut Vec<bool>, order: &mut Vec<usize>)
    requires
        i < es@.len(),
        walk_ok(es@, old(visited)@, old(order)@),
    ensures
        walk_ok(es@, final(visited)@, final(order)@),
        final(visited)@[i as int],
        final(order)@.len() >= old(order)@.len(),
        final(order)@.subrange(0, old(order)@.len() as int) == old(order)@,
        forall|q: int| 0 <= q < es@.len() && old(visited)@[q] ==> final(visited)@[q],
        forall|q: int| i < q < es@.len() ==> final(visited)@[q] == old(visited)@[q],
        forall|k: int|
            old(order)@.len() <= k < final(order)@.len() ==> below(es@, i as int, #[trigger] final(order)@[k] as int),
        (final(visited)@, final(order)@) == walk(es@, i as int, old(visited)@, old(order)@),
    decreases i,
{
    if visited[i] {
        return;
    }
    let ghost order0 = order@;
    let ghost visited0 = visited@;
    match &es[i].dependencies {
        Dependencies::Resolved(ix) => {
            let mut j: usize = 0;
            while j < ix.len()
                invariant
                    i < es@.len(),
                    es@[i as int].dependencies == Dependencies::Resolved(*ix),
                    j <= ix@.len(),
                    walk_ok(es@, visited@, order@),
                    !visited@[i as int],
                    order@.len() >= order0.len(),
                    order@.subrange(0, order0.len() as int) == order0,
                    forall|q: int| 0 <= q < es@.len() && visited0[q] ==> visited@[q],
                    forall|q: int| i <= q < es@.len() ==> visited@[q] == visited0[q],
                    forall|q: int| 0 <= q < j && ix@[q] < i ==> visited@[ix@[q] as int],
                    forall|k: int| order0.len() <= k < order@.len() ==> below(es@, i as int, #[trigger] order@[k] as int),
                    (visited@, order@) == walk_deps(es@, i as int, ix@, j as int, visited0, order0),
                decreases ix.len() - j,
            {
                if ix[j] < i {
                    let ghost order_t = order@;
                    visit(es, ix[j], visited, order);
                    proof {
                        assert forall|k: int| 0 <= k < order0.len() implies order@[k] == order0[k] by {
                            assert(order@.subrange(0, order_t.len() as int)[k] == order@[k]);
                            assert(order_t.subrange(0, order0.len() as int)[k] == order_t[k]);
                        }
                        assert(order@.subrange(0, order0.len() as int) =~= order0);
                        assert forall|k: int| order0.len() <= k < order@.len() implies below(
                            es@,
                            i as int,
                            #[trigger] order@[k] as int,
                        ) by {
                            if k < order_t.len() {
                                assert(order@.subrange(0, order_t.len() as int)[k] == order@[k]);
                            } else {
                                lemma_any_below(es@, i as int, ix@, ix@.len() as int, j as int, order@[k] as int);
                            }
                        }
                    }
                }
                j = j + 1;
            }
        },
        Dependencies::Unresolved(_) => {},
    }
    let ghost order_b = order@;
    let ghost visited_b = visited@;
    assert forall|k: int| order0.len() <= k < order_b.len() implies below(es@, i as int, #[trigger] order_b[k] as int) by {
        if es@[i as int].dependencies is Unresolved {
            assert(order_b.len() == order0.len());
        }
    }
    proof {
        assert(!order_b.contains(i));
    }
    proof {
        assert(visited0.len() == es@.len());
        match es@[i as int].dependencies {
            Dependencies::Resolved(ix) => {
                assert((visited_b, order_b) == walk_deps(es@, i as int, ix@, ix@.len() as int, visited0, order0));
            },
            Dependencies::Unresolved(_) => {
                assert(visited_b == visited0 && order_b == order0);
            },
        }
    }
    visited.set(i, true);
    order.push(i);
    proof {
        assert forall|k: int| order0.len() <= k < order@.len() implies below(es@, i as int, #[trigger] order@[k] as int) by {
            if k < order_b.len() {
                assert(order@[k] == order_b[k]);
            }
        }
        assert(order@.subrange(0, order0.len() as int) =~= order0) by {
            assert forall|k: int| 0 <= k < order0.len() implies order@[k] == order0[k] by {
                assert(order_b.subrange(0, order0.len() as int)[k] == order_b[k]);
            }
        }
        assert forall|q: int| 0 <= q < es@.len() && visited@[q] implies order@.contains(q as usize) by {
            if q != i {
                assert(visited_b[q]);
                let a = choose|a: int| 0 <= a < order_b.len() && order_b[a] == q as usize;
                assert(order@[a] == q as usize);
            } else {
                assert(order@[order@.len() - 1] == i);
            }
        }
        assert forall|a: int, b: int| 0 <= a < b < order@.len() implies order@[a] != order@[b] by {
            if b == order@.len() - 1 {
                assert(order_b[a] == order@[a]);
                assert(visited_b[order_b[a] as int]);
            }
        }
        let n = order@.len() - 1;
        assert forall|k: int| 0 <= k < order@.len() implies #[trigger] deps_before(es@, order@, k) by {
            if k < n {
                assert(order@[k] == order_b[k]);
                assert(deps_before(es@, order_b, k));
                match es@[order@[k] as int].dependencies {
                    Dependencies::Resolved(ix) => {
                        assert forall|j: int| 0 <= j < ix@.len() && ix@[j] < order@[k] implies placed_before(
                            order@,
                            #[trigger] ix@[j],
                            k,
                        ) by {
                            assert(placed_before(order_b, ix@[j], k));
                            let a = choose|a: int| 0 <= a < k && order_b[a] == ix@[j];
                            assert(order@[a] == order_b[a]);
                        }
                    },
                    Dependencies::Unresolved(_) => {},
                }
            } else {
                match es@[i as int].dependencies {
                    Dependencies::Resolved(ix) => {
                        assert forall|j: int| 0 <= j < ix@.len() && ix@[j] < order@[k] implies placed_before(
                            order@,
                            #[trigger] ix@[j],
                            k,
                        ) by {
                            assert(visited_b[ix@[j] as int]);
                            let a = choose|a: int| 0 <= a < order_b.len() && order_b[a] == ix@[j];
                            assert(order@[a] == order_b[a]);
                        }
                    },
                    Dependencies::Unresolved(_) => {},
                }
            }
        }
    }
}

/// The entries to write for the given roots, in post-order: each entry after
/// the entries it was resolved to, each entry once, every root included and
/// only entries below a root.
pub fn emission_order(es: &Vec<DependentSlice>, roots: &Vec<usize>) -> (r: Vec<usize>)
    requires
        forall|k: int| 0 <= k < roots@.len() ==> roots@[k] < es@.len(),
    ensures
        forall|k: int| 0 <= k < roots@.len() ==> r@.contains(#[trigger] roots@[k]),
        forall|k: int| 0 <= k < r@.len() ==> r@[k] < es@.len(),
        forall|a: int, b: int| 0 <= a < b < r@.len() ==> r@[a] != r@[b],
        forall|k: int| 0 <= k < r@.len() ==> #[trigger] deps_before(es@, r@, k),
        forall|k: int| 0 <= k < r@.len() ==> below_roots(es@, roots@, #[trigger] r@[k] as int),
        r@ == emitted(es@, roots@),
{
    let mut visited: Vec<bool> = Vec::new();
    let mut i: usize = 0;
    while i < es.len()
        invariant
            i <= es@.len(),
            visited@.len() == i,
            forall|q: int| 0 <= q < i ==> !visited@[q],
        decreases es.len() - i,
    {
        visited.push(false);
        i = i + 1;
    }
    let mut order: Vec<usize> = Vec::new();
    let mut k: usize = 0;
    let ghost vis0 = visited@;
    assert(vis0 =~= Seq::new(es@.len(), |q: int| false));
    assert(order@ =~= Seq::<usize>::empty());
    while k < roots.len()
        invariant
            vis0 == Seq::new(es@.len(), |q: int| false),
            (visited@, order@) == walk_roots(es@, roots@, k as int, vis0, Seq::<usize>::empty()),
            forall|m: int| 0 <= m < roots@.len() ==> roots@[m] < es@.len(),
            k <= roots@.len(),
            walk_ok(es@, visited@, order@),
            forall|m: int| 0 <= m < k ==> visited@[roots@[m] as int],
            forall|q: int| 0 <= q < order@.len() ==> below_roots(es@, roots@, #[trigger] order@[q] as int),
        decreases roots.len() - k,
    {
        let ghost order_t = order@;
        visit(es, roots[k], &mut visited, &mut order);
        proof {
            assert forall|q: int| 0 <= q < order@.len() implies below_roots(es@, roots@, #[trigger] order@[q] as int) by {
                if q < order_t.len() {
                    assert(order@.subrange(0, order_t.len() as int)[q] == order@[q]);
                    assert(below_roots(es@, roots@, order_t[q] as int));
                } else {
                    assert(below(es@, roots@[k as int] as int, order@[q] as int));
                }
            }
        }
        k = k + 1;
    }
    order
}

/// The code of the entries `order` names, one after another.
pub open spec fn code_of(es: Seq<DependentSlice>, order: Seq<usize>, format: Format) -> Seq<char>
    decreases order.len(),
{
    if order.len() == 0 {
        Seq::empty()
    } else {
        code_of(es, order.drop_last(), format) + slice_code(es[order.last() as int].slice@, format)
    }
}

/// Writes the code of the entries `order` names, in that order.
pub fn create_code_from_slices(es: &Vec<DependentSlice>, order: &Vec<usize>, format: &Format) -> (r:
    String)
    requires
        forall|k: int| 0 <= k < order@.len() ==> order@[k] < es@.len(),
    ensures
        r@ == code_of(es@, order@, *format),
{
    let mut code = String::new();
    let mut k: usize = 0;
    assert(order@.subrange(0, 0) =~= Seq::<usize>::empty());
    while k < order.len()
        invariant
            forall|m: int| 0 <= m < order@.len() ==> order@[m] < es@.len(),
            k <= order@.len(),
            code@ == code_of(es@, order@.subrange(0, k as int), *format),
        decreases order.len() - k,
    {
        assert(order@.subrange(0, k + 1).drop_last() =~= order@.subrange(0, k as int));
        let part = generate_code(&es[order[k]].slice, format);
        code.append(part.as_str());
        k = k + 1;
    }
    assert(order@.subrange(0, k as int) =~= order@);
    code
}

/// The entry that answers a request, if any (see `found_index`).
pub open spec fn request_lookup(es: Seq<DependentSlice>, req: RequestedSlice) -> Option<int> {
    found_index(slices_of(es), req.name@, req.version@, req.version_match_strategy)
}

/// The entries answering the requests that are found and not blocked, in order.
pub open spec fn found_entries(es: Seq<DependentSlice>, reqs: Seq<RequestedSlice>) -> Seq<usize>
    decreases reqs.len(),
{
    if reqs.len() == 0 {
        Seq::empty()
    } else {
        let rest = found_entries(es, reqs.drop_last());
        match request_lookup(es, reqs.last()) {
            Some(i) => if blocked(es, i) {
                rest
            } else {
                rest.push(i as usize)
            },
            None => rest,
        }
    }
}

/// The entries answering the requests that are found but blocked, in order.
pub open spec fn blocked_found_entries(es: Seq<DependentSlice>, reqs: Seq<RequestedSlice>) -> Seq<
    usize,
>
    decreases reqs.len(),
{
    if reqs.len() == 0 {
        Seq::empty()
    } else {
        let rest = blocked_found_entries(es, reqs.drop_last());
        match request_lookup(es, reqs.last()) {
            Some(i) => if blocked(es, i) {
                rest.push(i as usize)
            } else {
                rest
            },
            None => rest,
        }
    }
}

/// The positions of the requests that nothing answers, in order.
pub open spec fn unanswered_requests(es: Seq<DependentSlice>, reqs: Seq<RequestedSlice>) -> Seq<usize>
    decreases reqs.len(),
{
    if reqs.len() == 0 {
        Seq::empty()
    } else {
        let rest = unanswered_requests(es, reqs.drop_last());
        match request_lookup(es, reqs.last()) {
            Some(_) => rest,
            None => rest.push((reqs.len() - 1) as usize),
        }
    }
}

/// What a lookup of the requested slices found: the entries to build, the
/// requests (by position) that nothing answers, and the entries that missing
/// dependencies block.
#[derive(Debug)]
pub struct DependenciesSearchResult {
    pub found_requested_slices: Vec<usize>,
    pub missing_requested_slices: Vec<usize>,
    pub blocked_requested_slices: Vec<usize>,
}

/// Looks up each requested slice and sorts the requests into those found and
/// not blocked, those found but blocked, and those nothing answers.
pub fn find_unresolved_dependencies(list: &List, requests: &Vec<RequestedSlice>) -> (r:
    DependenciesSearchResult)
    ensures
        r.found_requested_slices@ == found_entries(list.slices@, requests@),
        r.blocked_requested_slices@ == blocked_found_entries(list.slices@, requests@),
        r.missing_requested_slices@ == unanswered_requests(list.slices@, requests@),
{
    let ghost es = list.slices@;
    let flags = blocked_entries(&list.slices);
    let mut found: Vec<usize> = Vec::new();
    let mut missing: Vec<usize> = Vec::new();
    let mut blocked_ones: Vec<usize> = Vec::new();
    let mut k: usize = 0;
    assert(requests@.subrange(0, 0) =~= Seq::<RequestedSlice>::empty());
    while k < requests.len()
        invariant
            es == list.slices@,
            flags@.len() == es.len(),
            forall|i: int| 0 <= i < es.len() ==> flags@[i] == blocked(es, i),
            k <= requests@.len(),
            found@ == found_entries(es, requests@.subrange(0, k as int)),
            blocked_ones@ == blocked_found_entries(es, requests@.subrange(0, k as int)),
            missing@ == unanswered_requests(es, requests@.subrange(0, k as int)),
        decreases requests.len() - k,
    {
        let req = &requests[k];
        let ghost pre = requests@.subrange(0, k + 1);
        assert(pre.drop_last() =~= requests@.subrange(0, k as int));
        assert(pre.last() == *req);
        proof {
            crate::list::lemma_found_index_is_latest(
                slices_of(es),
                req.name@,
                req.version@,
                req.version_match_strategy,
            );
        }
        match list.find_slice_index(req.name.as_str(), &req.version, req.version_match_strategy) {
            Some(i) => {
                if flags[i] {
                    blocked_ones.push(i);
                } else {
                    found.push(i);
                }
            },
            None => {
                missing.push(k);
            },
        }
        k = k + 1;
    }
    assert(requests@.subrange(0, k as int) =~= requests@);
    DependenciesSearchResult {
        found_requested_slices: found,
        missing_requested_slices: missing,
        blocked_requested_slices: blocked_ones,
    }
}

/// `order` is a post-order of the entries below `roots`: each entry once,
/// every root included, nothing that is not below a root, each entry after
/// the entries it was resolved to.
pub open spec fn is_emission_order(es: Seq<DependentSlice>, roots: Seq<usize>, order: Seq<usize>) -> bool {
    &&& forall|k: int| 0 <= k < roots.len() ==> order.contains(#[trigger] roots[k])
    &&& forall|k: int| 0 <= k < order.len() ==> order[k] < es.len()
    &&& forall|a: int, b: int| 0 <= a < b < order.len() ==> order[a] != order[b]
    &&& forall|k: int| 0 <= k < order.len() ==> #[trigger] deps_before(es, order, k)
    &&& forall|k: int| 0 <= k < order.len() ==> below_roots(es, roots, #[trigger] order[k] as int)
}

proof fn lemma_found_entries_in_range(es: Seq<DependentSlice>, reqs: Seq<RequestedSlice>)
    ensures
        forall|k: int| 0 <= k < found_entries(es, reqs).len() ==> #[trigger] found_entries(es, reqs)[k] < es.len(),
    decreases reqs.len(),
{
    if reqs.len() > 0 {
        lemma_found_entries_in_range(es, reqs.drop_last());
        let r = reqs.last();
        crate::list::lemma_found_index_is_latest(slices_of(es), r.name@, r.version@, r.version_match_strategy);
        assert(slices_of(es).len() == es.len());
        let rest = found_entries(es, reqs.drop_last());
        assert forall|k: int| 0 <= k < found_entries(es, reqs).len() implies #[trigger] found_entries(es, reqs)[k] < es.len() by {
            if k < rest.len() {
                assert(found_entries(es, reqs)[k] == rest[k]);
            }
        }
    }
}

/// Writes the script for the requested slices in the depth-first post-order
/// of `emitted`: dependencies first, each slice once, at its first visit.
/// Where some request is not answered, or missing dependencies block one,
/// returns instead what the lookup found.
pub fn generate_code_for_list(list: &List, requests: &Vec<RequestedSlice>, format: &Format) -> (r:
    Result<String, DependenciesSearchResult>)
    ensures
        r is Ok <==> unanswered_requests(list.slices@, requests@).len() == 0
            && blocked_found_entries(list.slices@, requests@).len() == 0,
        r matches Ok(code) ==> code@ == code_of(
            list.slices@,
            emitted(list.slices@, found_entries(list.slices@, requests@)),
            *format,
        ) && is_emission_order(
            list.slices@,
            found_entries(list.slices@, requests@),
            emitted(list.slices@, found_entries(list.slices@, requests@)),
        ),
        r matches Err(e) ==> e.found_requested_slices@ == found_entries(list.slices@, requests@)
            && e.blocked_requested_slices@ == blocked_found_entries(list.slices@, requests@)
            && e.missing_requested_slices@ == unanswered_requests(list.slices@, requests@),
{
    let result = find_unresolved_dependencies(list, requests);
    if result.missing_requested_slices.len() > 0 || result.blocked_requested_slices.len() > 0 {
        return Err(result);
    }
    proof {
        lemma_found_entries_in_range(list.slices@, requests@);
    }
    let order = emission_order(&list.slices, &result.found_requested_slices);
    let code = create_code_from_slices(&list.slices, &order, format);
    assert(is_emission_order(list.slices@, found_entries(list.slices@, requests@), order@));
    Ok(code)
}

/// In an emission order, a slice that an emitted slice depends on — however
/// many emitted slices depend on it — stands exactly once, and before each of
/// them.
pub proof fn lemma_emitted_exactly_once(
    es: Seq<DependentSlice>,
    st: VersionMatchStrategy,
    roots: Seq<usize>,
    order: Seq<usize>,
    p: int,
    j: int,
)
    requires
        entries_wf(es, st),
        is_emission_order(es, roots, order),
        0 <= p < order.len(),
        es[order[p] as int].dependencies is Resolved,
        0 <= j < es[order[p] as int].dependencies->Resolved_0@.len(),
    ensures
        exists|k: int|
            0 <= k < p && order[k] == es[order[p] as int].dependencies->Resolved_0@[j],
        forall|k1: int, k2: int|
            0 <= k1 < order.len() && 0 <= k2 < order.len() && order[k1]
                == es[order[p] as int].dependencies->Resolved_0@[j] && order[k2]
                == es[order[p] as int].dependencies->Resolved_0@[j] ==> k1 == k2,
{
    let i = order[p] as int;
    let pre = es.subrange(0, i + 1);
    assert(crate::list::last_entry_wf(pre, st));
    assert(pre[i] == es[i]);
    let ix = es[i].dependencies->Resolved_0;
    assert(ix@[j] < i);
    assert(deps_before(es, order, p));
    assert(placed_before(order, ix@[j], p));
}

/// The missing names recorded by the entries `order` names, one after another.
pub open spec fn missing_along(es: Seq<DependentSlice>, order: Seq<usize>) -> Seq<Seq<char>>
    decreases order.len(),
{
    if order.len() == 0 {
        Seq::empty()
    } else {
        missing_along(es, order.drop_last()) + own_missing(es[order.last() as int])
    }
}

/// The dependency names missing below entry `i`: those recorded by the
/// entries the walk from `i` reaches, in the order of the walk.
pub fn missing_dependencies_below(es: &Vec<DependentSlice>, i: usize) -> (r: Vec<String>)
    requires
        i < es@.len(),
    ensures
        texts_view(r@) == missing_along(es@, emitted(es@, seq![i])),
{
    let roots = vec![i];
    let order = emission_order(es, &roots);
    assert(roots@ =~= seq![i]);
    let mut r: Vec<String> = Vec::new();
    let mut k: usize = 0;
    assert(order@.subrange(0, 0) =~= Seq::<usize>::empty());
    assert(texts_view(r@) =~= Seq::<Seq<char>>::empty());
    while k < order.len()
        invariant
            forall|m: int| 0 <= m < order@.len() ==> order@[m] < es@.len(),
            k <= order@.len(),
            texts_view(r@) == missing_along(es@, order@.subrange(0, k as int)),
        decreases order.len() - k,
    {
        assert(order@.subrange(0, k + 1).drop_last() =~= order@.subrange(0, k as int));
        let ms = es[order[k]].unresolved_dependencies();
        let ghost before = texts_view(r@);
        let mut m: usize = 0;
        assert(before + texts_view(ms@).subrange(0, 0) =~= before);
        while m < ms.len()
            invariant
                k < order@.len(),
                order@[k as int] < es@.len(),
                ms@ == crate::list::own_missing_texts(es@[order@[k as int] as int]),
                m <= ms@.len(),
                texts_view(r@) == before + texts_view(ms@).subrange(0, m as int),
            decreases ms.len() - m,
        {
            let ghost old_r = r@;
            r.push(ms[m].clone());
            assert(texts_view(r@) =~= texts_view(old_r).push(ms@[m as int]@));
            assert(texts_view(ms@).subrange(0, m + 1) =~= texts_view(ms@).subrange(0, m as int).push(
                ms@[m as int]@,
            ));
            assert(texts_view(r@) =~= before + texts_view(ms@).subrange(0, m + 1));
            m = m + 1;
        }
        assert(texts_view(ms@).subrange(0, m as int) =~= texts_view(ms@));
        k = k + 1;
    }
    assert(order@.subrange(0, k as int) =~= order@);
    r
}

} // verus!
