//! Decisions of the fetch step: which published branch of slices to download.
use crate::text::texts_equal;
use crate::version::{extract_name_and_version, version_lt, version_part, Version, VersionView};
use crate::SliceError;
use vstd::prelude::*;

verus! {

/// Where downloaded slices are unpacked.
#[derive(Debug)]
pub struct FetchCommand {
    pub slice_root_directory: String,
}

impl FetchCommand {
    /// A fetch into the given catalog root.
    pub fn new(slice_root_directory: String) -> (r: FetchCommand)
        ensures
            r.slice_root_directory == slice_root_directory,
    {
        FetchCommand { slice_root_directory }
    }
}

/// Whether every `name-version` token carries a valid version.
pub open spec fn all_versions_valid(vs: Seq<Seq<char>>) -> bool {
    forall|i: int| 0 <= i < vs.len() ==> (#[trigger] version_part(vs[i])) is Some
}

/// The token of the highest version, the last of them where several rank equal.
pub open spec fn latest_index(vs: Seq<Seq<char>>) -> int
    decreases vs.len(),
{
    if vs.len() == 0 {
        -1
    } else {
        let b = latest_index(vs.drop_last());
        if b < 0 || !version_lt(version_part(vs.last())->0, version_part(vs[b])->0) {
            vs.len() - 1
        } else {
            b
        }
    }
}

proof fn lemma_latest_index_bounds(vs: Seq<Seq<char>>)
    ensures
        vs.len() == 0 ==> latest_index(vs) == -1,
        vs.len() > 0 ==> 0 <= latest_index(vs) < vs.len(),
    decreases vs.len(),
{
    if vs.len() > 0 {
        lemma_latest_index_bounds(vs.drop_last());
    }
}

pub open spec fn strs_view<'a>(v: Seq<&'a str>) -> Seq<Seq<char>> {
    v.map_values(|s: &'a str| s@)
}

/// Picks the token of the highest version (see `latest_index`); an error where
/// a token's version is invalid.
pub fn choose_latest_version<'a>(versions: &Vec<&'a str>) -> (r: Result<&'a str, SliceError>)
    requires
        versions@.len() > 0,
    ensures
        r is Ok <==> all_versions_valid(strs_view(versions@)),
        r matches Ok(s) ==> s == versions@[latest_index(strs_view(versions@))],
        r matches Err(e) ==> e == SliceError::InvalidVersion,
{
    let ghost vs = strs_view(versions@);
    let mut best: usize = 0;
    let mut best_version: Version = crate::version::zero();
    let mut i: usize = 0;
    while i < versions.len()
        invariant
            vs == strs_view(versions@),
            i <= vs.len(),
            forall|k: int| 0 <= k < i ==> (#[trigger] version_part(vs[k])) is Some,
            i > 0 ==> best as int == latest_index(vs.subrange(0, i as int)) && best < i
                && best_version@ == version_part(vs[best as int])->0,
        decreases versions.len() - i,
    {
        let ghost pre = vs.subrange(0, i + 1);
        assert(pre.drop_last() =~= vs.subrange(0, i as int));
        assert(pre.last() == versions@[i as int]@);
        proof {
            lemma_latest_index_bounds(vs.subrange(0, i as int));
        }
        match extract_name_and_version(versions[i]) {
            Err(e) => {
                assert(!all_versions_valid(vs)) by {
                    assert(version_part(vs[i as int]) is None);
                }
                return Err(e);
            },
            Ok((_, v)) => {
                if i == 0 || !v.is_less_than(&best_version) {
                    best = i;
                    best_version = v;
                } else {
                    assert(pre[best as int] == vs[best as int]);
                }
            },
        }
        i = i + 1;
    }
    assert(vs.subrange(0, i as int) =~= vs);
    Ok(versions[best])
}

/// The branches other than `master`.
pub open spec fn release_branches(bs: Seq<Seq<char>>) -> Seq<Seq<char>> {
    bs.filter(|b: Seq<char>| b != "master"@)
}

/// Chooses the branch to download: of the branches other than `master`, the
/// one of the highest version; `None` where there is no other branch.
pub fn choose_latest_branch<'a>(branches: &Vec<&'a str>) -> (r: Result<Option<&'a str>, SliceError>)
    ensures
        release_branches(strs_view(branches@)).len() == 0 ==> r == Ok::<Option<&'a str>, SliceError>(
            None,
        ),
        release_branches(strs_view(branches@)).len() > 0 ==> (r is Ok <==> all_versions_valid(
            release_branches(strs_view(branches@)),
        )),
        r matches Ok(Some(s)) ==> s@ == release_branches(strs_view(branches@))[latest_index(
            release_branches(strs_view(branches@)),
        )],
        r matches Err(e) ==> e == SliceError::InvalidVersion,
{
    let ghost bs = strs_view(branches@);
    let ghost pred = |b: Seq<char>| b != "master"@;
    let mut kept: Vec<&'a str> = Vec::new();
    let mut i: usize = 0;
    assert(bs.subrange(0, 0).filter(pred) =~= Seq::<Seq<char>>::empty());
    assert(strs_view(kept@) =~= Seq::<Seq<char>>::empty());
    while i < branches.len()
        invariant
            bs == strs_view(branches@),
            pred == (|b: Seq<char>| b != "master"@),
            i <= bs.len(),
            strs_view(kept@) == bs.subrange(0, i as int).filter(pred),
        decreases branches.len() - i,
    {
        assert(bs.subrange(0, i + 1) =~= bs.subrange(0, i as int).push(bs[i as int]));
        proof {
            bs.subrange(0, i as int).lemma_filter_push(bs[i as int], pred);
        }
        if !texts_equal(branches[i], "master") {
            kept.push(branches[i]);
            assert(strs_view(kept@) =~= bs.subrange(0, i as int).filter(pred).push(bs[i as int]));
        }
        i = i + 1;
    }
    assert(bs.subrange(0, i as int) =~= bs);
    assert(release_branches(bs) == bs.filter(pred));
    if kept.len() == 0 {
        return Ok(None);
    }
    match choose_latest_version(&kept) {
        Ok(s) => {
            proof {
                lemma_latest_index_bounds(strs_view(kept@));
            }
            Ok(Some(s))
        },
        Err(e) => Err(e),
    }
}

} // verus!
