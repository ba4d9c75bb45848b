//! Building the flat catalog: slices read from files, folded by name, and
//! filtered by operating system.
use crate::os::{Os, OsView};
use crate::section::{definition_sections, option_sections_view, parse_sections, sections_view};
use crate::slice::{os_support, supports_os, Slice};
use crate::text::{texts_equal, texts_view};
use crate::version::{extract_name_and_version, name_part, version_part};
use crate::{SliceError, VersionMatchStrategy};
use vstd::prelude::*;

verus! {

/// The extension of a file name: what follows its last `.`, unless that dot
/// opens the name.
pub open spec fn extension_of(name: Seq<char>) -> Option<Seq<char>>
    decreases name.len(),
{
    if name.len() == 0 {
        None
    } else if name.last() == '.' {
        if name.len() > 1 {
            Some(Seq::empty())
        } else {
            None
        }
    } else {
        match extension_of(name.drop_last()) {
            Some(e) => Some(e.push(name.last())),
            None => None,
        }
    }
}

/// Files with these extensions are documentation, not definitions.
pub open spec fn is_definition_file_name(name: Seq<char>) -> bool {
    match extension_of(name) {
        Some(e) => e != "md"@ && e != "txt"@,
        None => true,
    }
}

/// Whether a file of this name may hold a slice definition: not `.md`, not `.txt`.
pub fn is_definition_file(file_name: &str) -> (r: bool)
    ensures
        r == is_definition_file_name(file_name@),
{
    let n = file_name.unicode_len();
    let mut i: usize = n;
    let ghost s = file_name@;
    while i > 0 && file_name.get_char(i - 1) != '.'
        invariant
            n == s.len(),
            s == file_name@,
            i <= n,
            forall|k: int| i <= k < n ==> s[k] != '.',
        decreases i,
    {
        i = i - 1;
    }
    proof {
        lemma_extension_after_last_dot(s, i as int);
    }
    if i <= 1 {
        return true;
    }
    let ext = file_name.substring_char(i, n);
    !(texts_equal(ext, "md") || texts_equal(ext, "txt"))
}

proof fn lemma_extension_after_last_dot(s: Seq<char>, i: int)
    requires
        0 <= i <= s.len(),
        forall|k: int| i <= k < s.len() ==> s[k] != '.',
        i > 0 ==> s[i - 1] == '.',
    ensures
        i <= 1 ==> extension_of(s) is None,
        i > 1 ==> extension_of(s) == Some(s.subrange(i, s.len() as int)),
    decreases s.len(),
{
    if s.len() > i {
        lemma_extension_after_last_dot(s.drop_last(), i);
        assert(s.drop_last().subrange(i, s.len() - 1).push(s.last()) =~= s.subrange(i, s.len() as int));
    } else if i > 0 {
        assert(s.subrange(i, s.len() as int) =~= Seq::<char>::empty());
    }
}

/// The slice that a definition file makes: its name and version come from the
/// file name; `None` where the lines are not a definition or the name part is
/// empty; an error where the file name's version is invalid.
pub open spec fn file_slice_ok(
    file_name: Seq<char>,
    lines: Seq<Seq<char>>,
    r: Result<Option<Slice>, SliceError>,
) -> bool {
    if version_part(file_name) is None {
        r == Err::<Option<Slice>, SliceError>(SliceError::InvalidVersion)
    } else if name_part(file_name).len() == 0 || definition_sections(lines) is None {
        r == Ok::<Option<Slice>, SliceError>(None)
    } else {
        r matches Ok(Some(s)) && s@.name == name_part(file_name) && s@.version == version_part(
            file_name,
        )->0 && s@.sections == definition_sections(lines)->0
    }
}

/// Reads one definition file into a slice (see `file_slice_ok`).
pub fn slice_from_file(path: String, file_name: &str, lines: Vec<String>) -> (r: Result<
    Option<Slice>,
    SliceError,
>)
    ensures
        file_slice_ok(file_name@, texts_view(lines@), r),
        r matches Ok(Some(s)) ==> s.path == path,
{
    let (name, version) = match extract_name_and_version(file_name) {
        Ok(nv) => nv,
        Err(e) => {
            return Err(e);
        },
    };
    let sections = match parse_sections(lines) {
        Some(s) => s,
        None => {
            return Ok(None);
        },
    };
    if name.as_str().unicode_len() == 0 {
        return Ok(None);
    }
    Ok(Some(Slice { name, version, path, sections }))
}

/// The position of the first slice called `name`, or -1.
pub open spec fn name_index(c: Seq<Slice>, name: Seq<char>) -> int
    decreases c.len(),
{
    if c.len() == 0 {
        -1
    } else {
        let r = name_index(c.drop_last(), name);
        if r >= 0 {
            r
        } else if c.last()@.name == name {
            c.len() - 1
        } else {
            -1
        }
    }
}

/// Adding a slice to a catalog: it replaces the slice of the same name, in
/// place, or else goes last.
pub open spec fn catalog_insert(c: Seq<Slice>, s: Slice) -> Seq<Slice> {
    let i = name_index(c, s@.name);
    if i < 0 {
        c.push(s)
    } else {
        c.update(i, s)
    }
}

/// The catalog that slices make, added in order.
pub open spec fn catalog_of(ss: Seq<Slice>) -> Seq<Slice>
    decreases ss.len(),
{
    if ss.len() == 0 {
        Seq::empty()
    } else {
        catalog_insert(catalog_of(ss.drop_last()), ss.last())
    }
}

proof fn lemma_name_index(c: Seq<Slice>, name: Seq<char>)
    ensures
        -1 <= name_index(c, name) < c.len(),
        name_index(c, name) >= 0 ==> c[name_index(c, name)]@.name == name && forall|k: int|
            0 <= k < name_index(c, name) ==> c[k]@.name != name,
        name_index(c, name) < 0 ==> forall|k: int| 0 <= k < c.len() ==> c[k]@.name != name,
    decreases c.len(),
{
    if c.len() > 0 {
        lemma_name_index(c.drop_last(), name);
        assert forall|k: int| 0 <= k < c.len() - 1 implies #[trigger] c[k] == c.drop_last()[k] by {}
    }
}

/// Adds a slice to a catalog (see `catalog_insert`).
pub fn insert_into_catalog(catalog: &mut Vec<Slice>, slice: Slice)
    ensures
        final(catalog)@ == catalog_insert(old(catalog)@, slice),
{
    let ghost c = catalog@;
    proof {
        lemma_name_index(c, slice@.name);
    }
    let mut i: usize = 0;
    while i < catalog.len()
        invariant
            c == catalog@,
            c == old(catalog)@,
            i <= catalog@.len(),
            forall|k: int| 0 <= k < i ==> catalog@[k]@.name != slice@.name,
        decreases catalog.len() - i,
    {
        if catalog[i].name == slice.name {
            proof {
                lemma_name_index(c, slice@.name);
                assert(c[i as int]@.name == slice@.name);
                let ni = name_index(c, slice@.name);
                if ni < 0 {
                    assert(c[i as int]@.name != slice@.name);
                } else if ni < i {
                    assert(c[ni]@.name != slice@.name);
                } else if ni > i {
                    assert(c[i as int]@.name != slice@.name);
                }
            }
            let ghost sl = slice;
            catalog.set(i, slice);
            assert(catalog@ == c.update(i as int, sl));
            assert(name_index(c, sl@.name) == i);
            return;
        }
        i = i + 1;
    }
    proof {
        lemma_name_index(c, slice@.name);
    }
    catalog.push(slice);
}

/// Folds slices into a catalog, in order: a later slice replaces an earlier
/// one of the same name.
pub fn build_catalog(slices: Vec<Slice>) -> (r: Vec<Slice>)
    ensures
        r@ == catalog_of(slices@),
{
    let ghost all = slices@;
    let len = slices.len();
    let mut rest = slices;
    let mut catalog: Vec<Slice> = Vec::new();
    let mut n: usize = 0;
    assert(all.subrange(0, 0) =~= Seq::<Slice>::empty());
    assert(rest@ =~= all.subrange(0, all.len() as int));
    while rest.len() > 0
        invariant
            len == all.len(),
            n + rest@.len() == all.len(),
            rest@ == all.subrange(n as int, all.len() as int),
            catalog@ == catalog_of(all.subrange(0, n as int)),
        decreases rest@.len(),
    {
        let s = rest.remove(0);
        assert(all.subrange(0, n + 1).drop_last() =~= all.subrange(0, n as int));
        insert_into_catalog(&mut catalog, s);
        n = n + 1;
        assert(rest@ =~= all.subrange(n as int, all.len() as int));
    }
    assert(all.subrange(0, n as int) =~= all);
    catalog
}

/// A catalog holds at most one slice of each name.
pub proof fn lemma_catalog_names_unique(ss: Seq<Slice>)
    ensures
        forall|a: int, b: int|
            0 <= a < b < catalog_of(ss).len() ==> catalog_of(ss)[a]@.name != catalog_of(ss)[b]@.name,
    decreases ss.len(),
{
    if ss.len() > 0 {
        let c = catalog_of(ss.drop_last());
        lemma_catalog_names_unique(ss.drop_last());
        lemma_name_index(c, ss.last()@.name);
    }
}

/// The slices that support `os`, in order; the first error met where a slice
/// has no OS section or an invalid OS entry.
pub open spec fn os_filtered(ss: Seq<Slice>, os: OsView, st: VersionMatchStrategy) -> Result<
    Seq<Slice>,
    SliceError,
>
    decreases ss.len(),
{
    if ss.len() == 0 {
        Ok(Seq::empty())
    } else {
        match os_filtered(ss.drop_last(), os, st) {
            Err(e) => Err(e),
            Ok(t) => match os_support(ss.last()@, os, st) {
                Err(e) => Err(e),
                Ok(b) => Ok(
                    if b {
                        t.push(ss.last())
                    } else {
                        t
                    },
                ),
            },
        }
    }
}

pub open spec fn result_seq(r: Result<Vec<Slice>, SliceError>) -> Result<Seq<Slice>, SliceError> {
    match r {
        Ok(v) => Ok(v@),
        Err(e) => Err(e),
    }
}

/// Keeps the slices that support `os` (see `os_filtered`).
pub fn filter_for_os(slices: Vec<Slice>, os: &Os, strategy: VersionMatchStrategy) -> (r: Result<
    Vec<Slice>,
    SliceError,
>)
    ensures
        result_seq(r) == os_filtered(slices@, os@, strategy),
{
    let ghost all = slices@;
    let len = slices.len();
    let mut rest = slices;
    let mut kept: Vec<Slice> = Vec::new();
    let mut n: usize = 0;
    assert(rest@ =~= all.subrange(0, all.len() as int));
    assert(all.subrange(0, 0) =~= Seq::<Slice>::empty());
    while rest.len() > 0
        invariant
            all == slices@,
            len == all.len(),
            n + rest@.len() == all.len(),
            rest@ == all.subrange(n as int, all.len() as int),
            os_filtered(all.subrange(0, n as int), os@, strategy) == Ok::<Seq<Slice>, SliceError>(
                kept@,
            ),
        decreases rest@.len(),
    {
        let s = rest.remove(0);
        assert(all.subrange(0, n + 1).drop_last() =~= all.subrange(0, n as int));
        assert(all.subrange(0, n + 1).last() == s);
        match supports_os(&s, os, strategy) {
            Err(e) => {
                proof {
                    assert(os_filtered(all.subrange(0, n + 1), os@, strategy) == Err::<Seq<Slice>, SliceError>(e));
                    lemma_os_filtered_error(all, n as int + 1, os@, strategy);
                }
                return Err(e);
            },
            Ok(b) => {
                if b {
                    kept.push(s);
                }
            },
        }
        n = n + 1;
        assert(rest@ =~= all.subrange(n as int, all.len() as int));
    }
    assert(all.subrange(0, n as int) =~= all);
    Ok(kept)
}

/// An error on a prefix is the error of the whole.
proof fn lemma_os_filtered_error(ss: Seq<Slice>, n: int, os: OsView, st: VersionMatchStrategy)
    requires
        0 <= n <= ss.len(),
        os_filtered(ss.subrange(0, n), os, st) is Err,
    ensures
        os_filtered(ss, os, st) == os_filtered(ss.subrange(0, n), os, st),
    decreases ss.len() - n,
{
    if n < ss.len() {
        assert(ss.subrange(0, n + 1).drop_last() =~= ss.subrange(0, n));
        lemma_os_filtered_error(ss, n + 1, os, st);
    } else {
        assert(ss.subrange(0, n) =~= ss);
    }
}

} // verus!
