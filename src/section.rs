//! Keyword-delimited sections of a slice definition.
use crate::text::{texts_equal, texts_from, texts_view};
use vstd::prelude::*;

verus! {

/// The keywords that open a section.
#[derive(Clone, Copy, Debug, PartialEq, Eq, Structural)]
pub enum Kind {
    Os,
    Dep,
    Add,
    Cmd,
    Copy,
    EntryPoint,
    Env,
    Expose,
    From,
    Label,
    Maintainer,
    Onbuild,
    Run,
    User,
    Volume,
    WorkDir,
}

/// The section kind that a line names, if it is exactly a keyword.
pub open spec fn kind_of(l: Seq<char>) -> Option<Kind> {
    if l == "OS"@ {
        Some(Kind::Os)
    } else if l == "DEP"@ {
        Some(Kind::Dep)
    } else if l == "ADD"@ {
        Some(Kind::Add)
    } else if l == "CMD"@ {
        Some(Kind::Cmd)
    } else if l == "COPY"@ {
        Some(Kind::Copy)
    } else if l == "ENTRYPOINT"@ {
        Some(Kind::EntryPoint)
    } else if l == "ENV"@ {
        Some(Kind::Env)
    } else if l == "EXPOSE"@ {
        Some(Kind::Expose)
    } else if l == "FROM"@ {
        Some(Kind::From)
    } else if l == "LABEL"@ {
        Some(Kind::Label)
    } else if l == "MAINTAINER"@ {
        Some(Kind::Maintainer)
    } else if l == "ONBUILD"@ {
        Some(Kind::Onbuild)
    } else if l == "RUN"@ {
        Some(Kind::Run)
    } else if l == "USER"@ {
        Some(Kind::User)
    } else if l == "VOLUME"@ {
        Some(Kind::Volume)
    } else if l == "WORKDIR"@ {
        Some(Kind::WorkDir)
    } else {
        None
    }
}

impl Kind {
    /// The kind whose keyword the line is, if any.
    pub fn from_keyword(l: &str) -> (r: Option<Kind>)
        ensures
            r == kind_of(l@),
    {
        if texts_equal(l, "OS") {
            Some(Kind::Os)
        } else if texts_equal(l, "DEP") {
            Some(Kind::Dep)
        } else if texts_equal(l, "ADD") {
            Some(Kind::Add)
        } else if texts_equal(l, "CMD") {
            Some(Kind::Cmd)
        } else if texts_equal(l, "COPY") {
            Some(Kind::Copy)
        } else if texts_equal(l, "ENTRYPOINT") {
            Some(Kind::EntryPoint)
        } else if texts_equal(l, "ENV") {
            Some(Kind::Env)
        } else if texts_equal(l, "EXPOSE") {
            Some(Kind::Expose)
        } else if texts_equal(l, "FROM") {
            Some(Kind::From)
        } else if texts_equal(l, "LABEL") {
            Some(Kind::Label)
        } else if texts_equal(l, "MAINTAINER") {
            Some(Kind::Maintainer)
        } else if texts_equal(l, "ONBUILD") {
            Some(Kind::Onbuild)
        } else if texts_equal(l, "RUN") {
            Some(Kind::Run)
        } else if texts_equal(l, "USER") {
            Some(Kind::User)
        } else if texts_equal(l, "VOLUME") {
            Some(Kind::Volume)
        } else if texts_equal(l, "WORKDIR") {
            Some(Kind::WorkDir)
        } else {
            None
        }
    }
}

/// A section: its kind and its ordered items.
#[derive(Clone, Debug)]
pub struct Section {
    pub kind: Kind,
    pub items: Vec<String>,
}

pub struct SectionView {
    pub kind: Kind,
    pub items: Seq<Seq<char>>,
}

impl View for Section {
    type V = SectionView;

    open spec fn view(&self) -> SectionView {
        SectionView { kind: self.kind, items: texts_view(self.items@) }
    }
}

pub open spec fn sections_view(v: Seq<Section>) -> Seq<SectionView> {
    v.map_values(|s: Section| s@)
}

/// The first line at or after `i` that is not blank, or the number of lines.
pub open spec fn first_nonblank(ls: Seq<Seq<char>>, i: int) -> int
    decreases ls.len() - i,
{
    if i >= ls.len() {
        ls.len() as int
    } else if ls[i].len() > 0 {
        i
    } else {
        first_nonblank(ls, i + 1)
    }
}

/// The first keyword line at or after `i`, or the number of lines.
pub open spec fn next_keyword(ls: Seq<Seq<char>>, i: int) -> int
    decreases ls.len() - i,
{
    if i >= ls.len() {
        ls.len() as int
    } else if kind_of(ls[i]) is Some {
        i
    } else {
        next_keyword(ls, i + 1)
    }
}

/// The lines that are not blank, in order.
pub open spec fn nonblank(ls: Seq<Seq<char>>) -> Seq<Seq<char>>
    decreases ls.len(),
{
    if ls.len() == 0 {
        ls
    } else if ls.last().len() == 0 {
        nonblank(ls.drop_last())
    } else {
        nonblank(ls.drop_last()).push(ls.last())
    }
}

/// One section read off the front of `ls`, and the lines left for the next one.
/// Blank lines are skipped; the first other line must be a keyword, else no
/// section is read and the lines from it on are left. The items run up to the
/// next keyword line, which is left as the head of what remains.
pub open spec fn section_parse(ls: Seq<Seq<char>>) -> (Option<SectionView>, Seq<Seq<char>>) {
    let k = first_nonblank(ls, 0);
    if k >= ls.len() {
        (None, Seq::empty())
    } else if kind_of(ls[k]) is None {
        (None, ls.subrange(k, ls.len() as int))
    } else {
        let e = next_keyword(ls, k + 1);
        (
            Some(SectionView { kind: kind_of(ls[k])->0, items: nonblank(ls.subrange(k + 1, e)) }),
            ls.subrange(e, ls.len() as int),
        )
    }
}

pub open spec fn option_section_view(o: Option<Section>) -> Option<SectionView> {
    match o {
        Some(s) => Some(s@),
        None => None,
    }
}

/// All the sections of `ls`, read one after another until the lines run out;
/// `None` where some stretch is not a section.
pub open spec fn sections_of(ls: Seq<Seq<char>>) -> Option<Seq<SectionView>>
    decreases ls.len(),
{
    if ls.len() == 0 {
        Some(Seq::empty())
    } else {
        let (s, rest) = section_parse(ls);
        match s {
            None => None,
            Some(sec) => if rest.len() < ls.len() {
                match sections_of(rest) {
                    Some(t) => Some(seq![sec] + t),
                    None => None,
                }
            } else {
                None
            },
        }
    }
}

/// A definition: a non-empty sequence of sections that covers all its lines.
pub open spec fn definition_sections(ls: Seq<Seq<char>>) -> Option<Seq<SectionView>> {
    match sections_of(ls) {
        Some(s) => if s.len() > 0 {
            Some(s)
        } else {
            None
        },
        None => None,
    }
}

impl Section {
    /// Reads one section off the front of `lines` (see `section_parse`).
    pub fn from_lines(lines: Vec<String>) -> (r: (Option<Section>, Vec<String>))
        ensures
            (option_section_view(r.0), texts_view(r.1@)) == section_parse(texts_view(lines@)),
            r.0 is Some ==> r.1@.len() < lines@.len(),
    {
        let ghost ls = texts_view(lines@);
        let n = lines.len();
        let mut i: usize = 0;
        while i < n && lines[i].as_str().unicode_len() == 0
            invariant
                n == lines@.len(),
                ls == texts_view(lines@),
                i <= n,
                first_nonblank(ls, 0) == first_nonblank(ls, i as int),
            decreases n - i,
        {
            i = i + 1;
        }
        if i == n {
            let empty: Vec<String> = Vec::new();
            assert(texts_view(empty@) =~= Seq::<Seq<char>>::empty());
            return (None, empty);
        }
        let kind = match Kind::from_keyword(lines[i].as_str()) {
            Some(k) => k,
            None => {
                let rest = texts_from(&lines, i);
                assert(texts_view(rest@) =~= ls.subrange(i as int, n as int));
                return (None, rest);
            },
        };
        let mut items: Vec<String> = Vec::new();
        let mut j: usize = i + 1;
        assert(ls.subrange(i + 1, i + 1) =~= Seq::<Seq<char>>::empty());
        while j < n
            invariant
                n == lines@.len(),
                ls == texts_view(lines@),
                i < j <= n,
                next_keyword(ls, i + 1) == next_keyword(ls, j as int),
                texts_view(items@) == nonblank(ls.subrange(i + 1, j as int)),
            ensures
                i < j <= n,
                next_keyword(ls, i + 1) == next_keyword(ls, j as int),
                texts_view(items@) == nonblank(ls.subrange(i + 1, j as int)),
                next_keyword(ls, j as int) == j,
            decreases n - j,
        {
            if Kind::from_keyword(lines[j].as_str()).is_some() {
                assert(ls[j as int] == lines@[j as int]@);
                break;
            }
            assert(ls.subrange(i + 1, j + 1).drop_last() =~= ls.subrange(i + 1, j as int));
            if lines[j].as_str().unicode_len() > 0 {
                items.push(lines[j].clone());
                assert(texts_view(items@) =~= nonblank(ls.subrange(i + 1, j as int)).push(
                    ls[j as int],
                ));
            }
            j = j + 1;
        }
        let rest = texts_from(&lines, j);
        assert(texts_view(rest@) =~= ls.subrange(j as int, n as int));
        assert(ls[i as int] == lines@[i as int]@);
        assert(kind_of(ls[i as int]) == Some(kind));
        (Some(Section { kind, items }), rest)
    }
}

pub open spec fn option_sections_view(o: Option<Vec<Section>>) -> Option<Seq<SectionView>> {
    match o {
        Some(v) => Some(sections_view(v@)),
        None => None,
    }
}

/// Reads a whole definition into its sections; `None` where it is not one
/// (some stretch is not a section, or there is no section at all).
pub fn parse_sections(lines: Vec<String>) -> (r: Option<Vec<Section>>)
    ensures
        option_sections_view(r) == definition_sections(texts_view(lines@)),
{
    let ghost all = texts_view(lines@);
    let mut sections: Vec<Section> = Vec::new();
    let mut rest = lines;
    while rest.len() > 0
        invariant
            all == texts_view(lines@),
            sections_of(all) == match sections_of(texts_view(rest@)) {
                Some(t) => Some(sections_view(sections@) + t),
                None => None,
            },
        decreases rest@.len(),
    {
        let ghost before = texts_view(rest@);
        let (s, remaining) = Section::from_lines(rest);
        match s {
            None => {
                assert(sections_of(before) is None);
                return None;
            },
            Some(sec) => {
                assert(sections_view(sections@.push(sec)) =~= sections_view(sections@) + seq![
                    sec@,
                ]);
                sections.push(sec);
                rest = remaining;
                proof {
                    match sections_of(texts_view(rest@)) {
                        Some(t) => {
                            assert(sections_view(sections@) + t =~= sections_view(sections@).drop_last()
                                + (seq![sections_view(sections@).last()] + t));
                        },
                        None => {},
                    }
                }
            },
        }
    }
    assert(sections_of(texts_view(rest@)) == Some(Seq::<SectionView>::empty())) by {
        assert(texts_view(rest@).len() == 0);
    }
    assert(sections_view(sections@) + Seq::<SectionView>::empty() =~= sections_view(sections@));
    if sections.len() == 0 {
        return None;
    }
    Some(sections)
}

} // verus!
