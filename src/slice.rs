//! One parsed slice definition and what can be asked of it.
use crate::os::{Os, OsView};
use crate::section::{sections_view, Kind, Section, SectionView};
use crate::text::{copy_texts, texts_view};
use crate::version::{extract_name_and_version, name_part, version_part, Version, VersionView};
use crate::{strategy_matches, SliceError, VersionMatchStrategy};
use vstd::prelude::*;

verus! {

/// A named, versioned definition read from one file.
#[derive(Debug)]
pub struct Slice {
    pub name: String,
    pub version: Version,
    pub path: String,
    pub sections: Vec<Section>,
}

pub struct SliceView {
    pub name: Seq<char>,
    pub version: VersionView,
    pub path: Seq<char>,
    pub sections: Seq<SectionView>,
}

impl View for Slice {
    type V = SliceView;

    open spec fn view(&self) -> SliceView {
        SliceView {
            name: self.name@,
            version: self.version@,
            path: self.path@,
            sections: sections_view(self.sections@),
        }
    }
}

/// The items of the first section of kind `k`, if there is one.
pub open spec fn section_items(secs: Seq<SectionView>, k: Kind) -> Option<Seq<Seq<char>>>
    decreases secs.len(),
{
    if secs.len() == 0 {
        None
    } else if secs[0].kind == k {
        Some(secs[0].items)
    } else {
        section_items(secs.drop_first(), k)
    }
}

/// The items of the first section of kind `k`, or none at all.
pub open spec fn items_or_empty(secs: Seq<SectionView>, k: Kind) -> Seq<Seq<char>> {
    match section_items(secs, k) {
        Some(items) => items,
        None => Seq::empty(),
    }
}

pub open spec fn option_texts_view(o: Option<Vec<String>>) -> Option<Seq<Seq<char>>> {
    match o {
        Some(v) => Some(texts_view(v@)),
        None => None,
    }
}

impl Slice {
    /// A slice with the given parts; its name must not be empty.
    pub fn new(name: String, version: Version, path: String, sections: Vec<Section>) -> (r: Slice)
        requires
            name@.len() > 0,
        ensures
            r.name == name,
            r.version == version,
            r.path == path,
            r.sections == sections,
    {
        Slice { name, version, path, sections }
    }

    pub fn name(&self) -> (r: &String)
        ensures
            r == &self.name,
    {
        &self.name
    }

    pub fn version(&self) -> (r: &Version)
        ensures
            r == &self.version,
    {
        &self.version
    }

    /// The items of the first section of the given kind, if there is one.
    pub fn get_section_items(&self, section_kind: Kind) -> (r: Option<Vec<String>>)
        ensures
            option_texts_view(r) == section_items(self@.sections, section_kind),
    {
        let ghost all = self@.sections;
        let mut i: usize = 0;
        assert(all.skip(0) =~= all);
        while i < self.sections.len()
            invariant
                all == sections_view(self.sections@),
                i <= self.sections@.len(),
                section_items(all, section_kind) == section_items(all.skip(i as int), section_kind),
            decreases self.sections.len() - i,
        {
            assert(all.skip(i as int)[0] == self.sections@[i as int]@);
            if self.sections[i].kind == section_kind {
                return Some(copy_texts(&self.sections[i].items));
            }
            assert(all.skip(i as int).drop_first() =~= all.skip(i + 1));
            i = i + 1;
        }
        None
    }

    fn items_or_empty(&self, section_kind: Kind) -> (r: Vec<String>)
        ensures
            texts_view(r@) == items_or_empty(self@.sections, section_kind),
    {
        match self.get_section_items(section_kind) {
            Some(items) => items,
            None => {
                let r: Vec<String> = Vec::new();
                assert(texts_view(r@) =~= Seq::<Seq<char>>::empty());
                r
            },
        }
    }

    /// The OS entries; the slice must have an OS section.
    pub fn get_os_list(&self) -> (r: Vec<String>)
        requires
            section_items(self@.sections, Kind::Os) is Some,
        ensures
            texts_view(r@) == section_items(self@.sections, Kind::Os)->0,
    {
        self.items_or_empty(Kind::Os)
    }

    /// The commands to run; the slice must have a RUN section.
    pub fn get_run_list(&self) -> (r: Vec<String>)
        requires
            section_items(self@.sections, Kind::Run) is Some,
        ensures
            texts_view(r@) == section_items(self@.sections, Kind::Run)->0,
    {
        self.items_or_empty(Kind::Run)
    }

    /// The names of the slices this one depends on (its DEP items).
    pub fn dependency_names(&self) -> (r: Vec<String>)
        ensures
            texts_view(r@) == items_or_empty(self@.sections, Kind::Dep),
    {
        self.items_or_empty(Kind::Dep)
    }

    /// The base images this slice builds on (its FROM items).
    pub fn ancestors(&self) -> (r: Vec<String>)
        ensures
            texts_view(r@) == items_or_empty(self@.sections, Kind::From),
    {
        self.items_or_empty(Kind::From)
    }

    /// The commands this slice runs (its RUN items).
    pub fn preparations(&self) -> (r: Vec<String>)
        ensures
            texts_view(r@) == items_or_empty(self@.sections, Kind::Run),
    {
        self.items_or_empty(Kind::Run)
    }
}

/// Whether one OS entry (`name-version`) names `os` and satisfies its version
/// under `strategy`; blank entries name nothing.
pub open spec fn os_entry_matches(
    entry: Seq<char>,
    os: OsView,
    strategy: VersionMatchStrategy,
) -> bool {
    entry.len() > 0 && version_part(entry) is Some && name_part(entry) == os.name
        && strategy_matches(version_part(entry)->0, os.version, strategy)
}

/// An OS entry whose version does not parse.
pub open spec fn os_entry_invalid(entry: Seq<char>) -> bool {
    entry.len() > 0 && version_part(entry) is None
}

/// Whether a slice supports `os`: an error where it has no OS section or one of
/// its OS entries has an invalid version, else whether some entry matches.
pub open spec fn os_support(s: SliceView, os: OsView, strategy: VersionMatchStrategy) -> Result<
    bool,
    SliceError,
> {
    match section_items(s.sections, Kind::Os) {
        None => Err(SliceError::MissingOsSection),
        Some(entries) => if some_os_entry_invalid(entries) {
            Err(SliceError::InvalidVersion)
        } else {
            Ok(some_os_entry_matches(entries, os, strategy))
        },
    }
}

pub open spec fn some_os_entry_invalid(entries: Seq<Seq<char>>) -> bool {
    exists|i: int| 0 <= i < entries.len() && os_entry_invalid(#[trigger] entries[i])
}

pub open spec fn some_os_entry_matches(
    entries: Seq<Seq<char>>,
    os: OsView,
    strategy: VersionMatchStrategy,
) -> bool {
    exists|i: int| 0 <= i < entries.len() && os_entry_matches(#[trigger] entries[i], os, strategy)
}

/// Whether `slice` supports `os` under `strategy` (see `os_support`).
pub fn supports_os(slice: &Slice, os: &Os, strategy: VersionMatchStrategy) -> (r: Result<
    bool,
    SliceError,
>)
    ensures
        r == os_support(slice@, os@, strategy),
{
    let entries = match slice.get_section_items(Kind::Os) {
        None => {
            return Err(SliceError::MissingOsSection);
        },
        Some(e) => e,
    };
    let ghost ev = texts_view(entries@);
    let mut found = false;
    let mut i: usize = 0;
    while i < entries.len()
        invariant
            ev == texts_view(entries@),
            section_items(slice@.sections, Kind::Os) == Some(ev),
            i <= entries@.len(),
            forall|j: int| 0 <= j < i ==> !os_entry_invalid(#[trigger] ev[j]),
            found == exists|j: int| 0 <= j < i && os_entry_matches(ev[j], os@, strategy),
        decreases entries.len() - i,
    {
        let entry = entries[i].as_str();
        assert(entry@ == ev[i as int]);
        if entry.unicode_len() > 0 {
            match extract_name_and_version(entry) {
                Err(e) => {
                    assert(os_entry_invalid(ev[i as int]));
                    assert(some_os_entry_invalid(ev));
                    return Err(e);
                },
                Ok((name, version)) => {
                    if name == os.name && strategy.matches(&version, &os.version) {
                        found = true;
                    }
                },
            }
        }
        i = i + 1;
    }
    assert(!some_os_entry_invalid(ev));
    assert(found == some_os_entry_matches(ev, os@, strategy));
    Ok(found)
}

} // verus!
