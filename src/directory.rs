//! Choosing the buckets of a catalog: the directories of the highest major version.
use crate::text::texts_view;
use crate::version::{
    chars_cmp, extract_name_and_version, lemma_chars_cmp, lemma_version_cmp, version_cmp,
    version_part, Version, VersionView,
};
use crate::SliceError;
use core::cmp::Ordering;
use vstd::prelude::*;

verus! {

broadcast use vstd::seq_lib::group_to_multiset_ensures;

/// The version that a bucket's `name-version` directory name carries.
pub open spec fn bucket_version(d: Seq<char>) -> VersionView {
    version_part(d)->0
}

/// Whether every bucket name carries a valid version.
pub open spec fn bucket_versions_valid(ds: Seq<Seq<char>>) -> bool {
    forall|i: int| 0 <= i < ds.len() ==> (#[trigger] version_part(ds[i])) is Some
}

/// The highest major version among the buckets (0 for none).
pub open spec fn max_major(ds: Seq<Seq<char>>) -> u64
    decreases ds.len(),
{
    if ds.len() == 0 {
        0
    } else {
        let m = max_major(ds.drop_last());
        let x = bucket_version(ds.last()).major;
        if x > m {
            x
        } else {
            m
        }
    }
}

/// Whether a bucket name carries major version `m`.
pub open spec fn has_major(m: u64) -> spec_fn(Seq<char>) -> bool {
    |d: Seq<char>| bucket_version(d).major == m
}

/// The buckets whose major version is the highest.
pub open spec fn retained_buckets(ds: Seq<Seq<char>>) -> Seq<Seq<char>> {
    ds.filter(has_major(max_major(ds)))
}

/// Bucket order: by version, and by name where versions rank equal.
pub open spec fn bucket_lt(a: Seq<char>, b: Seq<char>) -> bool {
    let c = version_cmp(bucket_version(a), bucket_version(b));
    c < 0 || (c == 0 && chars_cmp(a, b) < 0)
}

/// Each bucket name ranks no higher than the next.
pub open spec fn buckets_sorted(s: Seq<Seq<char>>) -> bool {
    forall|i: int| 0 <= i < s.len() - 1 ==> !bucket_lt(#[trigger] s[i + 1], s[i])
}

proof fn lemma_bucket_lt_asymmetric(a: Seq<char>, b: Seq<char>)
    ensures
        bucket_lt(a, b) ==> !bucket_lt(b, a),
{
    lemma_version_cmp(bucket_version(a), bucket_version(b), bucket_version(a));
    lemma_chars_cmp(a, b, a);
}

fn bucket_before(va: &Version, a: &String, vb: &Version, b: &String) -> (r: bool)
    ensures
        va@ == bucket_version(a@) && vb@ == bucket_version(b@) ==> r == bucket_lt(a@, b@),
{
    match va.compare(vb) {
        Ordering::Less => true,
        Ordering::Greater => false,
        Ordering::Equal => match crate::version::compare_text(a, b) {
            Ordering::Less => true,
            _ => false,
        },
    }
}

proof fn lemma_max_major_attained(ds: Seq<Seq<char>>)
    requires
        ds.len() > 0,
    ensures
        exists|i: int| 0 <= i < ds.len() && bucket_version(#[trigger] ds[i]).major == max_major(ds),
    decreases ds.len(),
{
    if ds.len() > 1 {
        lemma_max_major_attained(ds.drop_last());
        let i = choose|i: int|
            0 <= i < ds.drop_last().len() && bucket_version(#[trigger] ds.drop_last()[i]).major
                == max_major(ds.drop_last());
        if bucket_version(ds.last()).major <= max_major(ds.drop_last()) {
            assert(ds[i] == ds.drop_last()[i]);
        } else {
            assert(bucket_version(ds[ds.len() - 1]).major == max_major(ds));
        }
    } else {
        assert(ds.drop_last().len() == 0);
        assert(max_major(ds.drop_last()) == 0);
        assert(ds.last() == ds[0]);
        assert(bucket_version(ds[0]).major == max_major(ds));
    }
}

/// Where there is a bucket at all, some bucket is retained.
proof fn lemma_retained_nonempty(ds: Seq<Seq<char>>)
    requires
        ds.len() > 0,
    ensures
        retained_buckets(ds).len() > 0,
{
    lemma_max_major_attained(ds);
    let m = max_major(ds);
    let pred = has_major(m);
    let i = choose|i: int| 0 <= i < ds.len() && bucket_version(#[trigger] ds[i]).major == m;
    assert(ds.contains(ds[i]));
    ds.lemma_filter_contains_rev(pred, ds[i]);
    assert(retained_buckets(ds).contains(ds[i]));
}

proof fn lemma_insert_multiset(s: Seq<Seq<char>>, p: int, x: Seq<char>)
    requires
        0 <= p <= s.len(),
    ensures
        s.insert(p, x).to_multiset() == s.to_multiset().insert(x),
{
    let a = s.subrange(0, p);
    let b = s.subrange(p, s.len() as int);
    assert(s =~= a + b);
    vstd::seq_lib::lemma_multiset_commutative(a, b);
    vstd::seq_lib::lemma_multiset_commutative(a.push(x), b);
    a.to_multiset_ensures();
    assert(s.insert(p, x) =~= a.push(x) + b);
}

/// Keeps the buckets of the highest major version and sorts them ascending
/// by version (by name where versions rank equal). Fails where a bucket
/// name carries an invalid version.
pub fn get_directories_with_max_semver_major(directories: Vec<String>) -> (r: Result<
    Vec<String>,
    SliceError,
>)
    ensures
        r is Err <==> !bucket_versions_valid(texts_view(directories@)),
        r matches Err(e) ==> e == SliceError::InvalidVersion,
        r matches Ok(v) ==> texts_view(v@).to_multiset() == retained_buckets(
            texts_view(directories@),
        ).to_multiset() && buckets_sorted(texts_view(v@)),
{
    let ghost ds = texts_view(directories@);
    let n = directories.len();
    let mut versions: Vec<Version> = Vec::new();
    let mut m: u64 = 0;
    let mut i: usize = 0;
    while i < n
        invariant
            n == directories@.len(),
            ds == texts_view(directories@),
            i <= n,
            versions@.len() == i,
            forall|k: int| 0 <= k < i ==> (#[trigger] version_part(ds[k])) is Some,
            forall|k: int| 0 <= k < i ==> #[trigger] versions@[k]@ == bucket_version(ds[k]),
            m == max_major(ds.subrange(0, i as int)),
        decreases n - i,
    {
        assert(ds.subrange(0, i + 1).drop_last() =~= ds.subrange(0, i as int));
        match extract_name_and_version(directories[i].as_str()) {
            Err(e) => {
                assert(!bucket_versions_valid(ds)) by {
                    assert(version_part(ds[i as int]) is None);
                }
                return Err(e);
            },
            Ok((_, v)) => {
                if v.major > m {
                    m = v.major;
                }
                versions.push(v);
            },
        }
        i = i + 1;
    }
    assert(ds.subrange(0, n as int) =~= ds);
    let ghost pred = has_major(m);
    let mut names: Vec<String> = Vec::new();
    let mut sorted_versions: Vec<Version> = Vec::new();
    let mut j: usize = 0;
    assert(ds.subrange(0, 0).filter(pred) =~= Seq::<Seq<char>>::empty());
    assert(texts_view(names@) =~= Seq::<Seq<char>>::empty());
    while j < n
        invariant
            n == directories@.len(),
            ds == texts_view(directories@),
            versions@.len() == n,
            j <= n,
            forall|k: int| 0 <= k < n ==> #[trigger] versions@[k]@ == bucket_version(ds[k]),
            pred == has_major(m),
            names@.len() == sorted_versions@.len(),
            forall|k: int|
                0 <= k < names@.len() ==> #[trigger] sorted_versions@[k]@ == bucket_version(
                    names@[k]@,
                ),
            texts_view(names@).to_multiset() == ds.subrange(0, j as int).filter(pred).to_multiset(),
            buckets_sorted(texts_view(names@)),
        decreases n - j,
    {
        assert(ds.subrange(0, j + 1) =~= ds.subrange(0, j as int).push(ds[j as int]));
        proof {
            ds.subrange(0, j as int).lemma_filter_push(ds[j as int], pred);
        }
        assert(versions@[j as int]@ == bucket_version(ds[j as int]));
        if versions[j].major == m {
            let ghost sv = texts_view(names@);
            let name = directories[j].clone();
            let mut p: usize = 0;
            while p < names.len()
                invariant
                    j < n,
                    versions@.len() == n,
                    sv == texts_view(names@),
                    names@.len() == sorted_versions@.len(),
                    p <= names@.len(),
                    name@ == ds[j as int],
                    versions@[j as int]@ == bucket_version(ds[j as int]),
                    forall|k: int|
                        0 <= k < names@.len() ==> #[trigger] sorted_versions@[k]@ == bucket_version(
                            names@[k]@,
                        ),
                    forall|k: int| 0 <= k < p ==> !bucket_lt(name@, #[trigger] names@[k]@),
                ensures
                    p <= names@.len(),
                    forall|k: int| 0 <= k < p ==> !bucket_lt(name@, #[trigger] names@[k]@),
                    p < names@.len() ==> bucket_lt(name@, names@[p as int]@),
                decreases names.len() - p,
            {
                if bucket_before(&versions[j], &name, &sorted_versions[p], &names[p]) {
                    break;
                }
                p = p + 1;
            }
            proof {
                lemma_insert_multiset(sv, p as int, name@);
                if p > 0 {
                    lemma_bucket_lt_asymmetric(name@, sv[p - 1]);
                    lemma_version_cmp(
                        bucket_version(name@),
                        bucket_version(sv[p - 1]),
                        bucket_version(name@),
                    );
                    lemma_chars_cmp(name@, sv[p - 1], name@);
                }
                if p < sv.len() {
                    lemma_bucket_lt_asymmetric(name@, sv[p as int]);
                }
            }
            let ghost x = name@;
            assert(p > 0 ==> !bucket_lt(x, sv[p - 1]));
            assert(p < sv.len() ==> bucket_lt(x, sv[p as int]));
            assert(buckets_sorted(sv));
            names.insert(p, name);
            sorted_versions.insert(p, versions[j].clone_version());
            assert(texts_view(names@) =~= sv.insert(p as int, ds[j as int]));
            assert(pred(ds[j as int]));
            assert forall|k: int| 0 <= k < texts_view(names@).len() - 1 implies !bucket_lt(
                #[trigger] texts_view(names@)[k + 1],
                texts_view(names@)[k],
            ) by {
                let t = texts_view(names@);
                if k + 1 < p {
                    assert(t[k + 1] == sv[k + 1] && t[k] == sv[k]);
                    assert(!bucket_lt(sv[k + 1], sv[k]));
                } else if k + 1 == p {
                    assert(t[k + 1] == x && t[k] == sv[k]);
                } else if k == p {
                    assert(t[k + 1] == sv[k] && t[k] == x);
                } else {
                    assert(t[k + 1] == sv[k] && t[k] == sv[k - 1]);
                    assert(!bucket_lt(sv[(k - 1) + 1], sv[k - 1]));
                }
            }
        } else {
            assert(!pred(ds[j as int]));
        }
        j = j + 1;
    }
    assert(ds.subrange(0, n as int) =~= ds);
    assert(retained_buckets(ds) == ds.filter(pred));
    Ok(names)
}

/// Selects the buckets to load from the directory names under the catalog
/// root: an empty root is an error; otherwise see
/// `get_directories_with_max_semver_major`.
pub fn get_latest_slice_directories(directories: Vec<String>) -> (r: Result<Vec<String>, SliceError>)
    ensures
        directories@.len() == 0 ==> r == Err::<Vec<String>, SliceError>(SliceError::EmptyCatalog),
        directories@.len() > 0 ==> (r is Err <==> !bucket_versions_valid(texts_view(directories@))),
        directories@.len() > 0 ==> (r matches Err(e) ==> e == SliceError::InvalidVersion),
        r matches Ok(v) ==> v@.len() > 0 && texts_view(v@).to_multiset() == retained_buckets(
            texts_view(directories@),
        ).to_multiset() && buckets_sorted(texts_view(v@)),
{
    if directories.len() == 0 {
        return Err(SliceError::EmptyCatalog);
    }
    proof {
        lemma_retained_nonempty(texts_view(directories@));
    }
    let r = get_directories_with_max_semver_major(directories);
    proof {
        if r is Ok {
            assert(texts_view(r->Ok_0@).to_multiset().len() > 0);
        }
    }
    r
}

} // verus!
