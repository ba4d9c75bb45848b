use sb::section::{parse_sections, Kind, Section};
use sb::slice::Slice;
use sb::version::parse;

fn lines(text: &[&str]) -> Vec<String> {
    text.iter().map(|l| l.to_string()).collect()
}

#[test]
fn section_load_from_lines_works() {
    let mut lines: Vec<String> = Vec::new();
    lines.push("OS".to_string());
    lines.push("debian-8.2".to_string());
    lines.push("".to_string());
    lines.push("FROM".to_string());
    lines.push("debian:jessie".to_string());
    let (section, lines) = Section::from_lines(lines);
    let section = section.unwrap();
    assert_eq!(section.kind, Kind::Os);
    assert_eq!(section.items.len(), 1);
    assert_eq!(section.items.first().unwrap(), "debian-8.2");
    let (section, _) = Section::from_lines(lines);
    let section = section.unwrap();
    assert_eq!(section.kind, Kind::From);
    assert_eq!(section.items.len(), 1);
    assert_eq!(section.items.first().unwrap(), "debian:jessie");
}

#[test]
fn slice_get_os_list_works() {
    let mut lines: Vec<String> = Vec::new();
    lines.push("OS".to_string());
    lines.push("debian-8.2".to_string());
    lines.push("".to_string());
    lines.push("FROM".to_string());
    lines.push("debian:jessie".to_string());
    let mut sections: Vec<Section> = Vec::new();
    while !lines.is_empty() {
        let (section, remaining_lines) = Section::from_lines(lines);
        let section = section.unwrap();
        sections.push(section);
        lines = remaining_lines;
    }
    assert_eq!(sections.len(), 2);
    let slice = Slice {
        name: "Slice".to_string(),
        path: String::new(),
        version: parse("0.0.0").unwrap(),
        sections: sections,
    };
    let os_list = slice.get_section_items(Kind::Os).unwrap();
    assert_eq!(os_list.len(), 1);
    let os = os_list.first().unwrap();
    assert_eq!(os, "debian-8.2");
}

#[test]
fn definition_with_two_sections() {
    let sections = parse_sections(lines(&["OS", "debian-8.2", "", "FROM", "debian:jessie"])).unwrap();
    assert_eq!(sections.len(), 2);
    assert_eq!(sections[0].kind, Kind::Os);
    assert_eq!(sections[0].items, vec!["debian-8.2".to_string()]);
    assert_eq!(sections[1].kind, Kind::From);
    assert_eq!(sections[1].items, vec!["debian:jessie".to_string()]);
}

#[test]
fn keyword_line_is_left_for_the_next_section() {
    let (section, rest) = Section::from_lines(lines(&["", "RUN", "a", "", "b", "DEP", "x"]));
    let section = section.unwrap();
    assert_eq!(section.kind, Kind::Run);
    assert_eq!(section.items, vec!["a".to_string(), "b".to_string()]);
    assert_eq!(rest, lines(&["DEP", "x"]));
}

#[test]
fn text_before_any_keyword_is_not_a_definition() {
    let (section, rest) = Section::from_lines(lines(&["", "hello", "RUN", "a"]));
    assert!(section.is_none());
    assert_eq!(rest, lines(&["hello", "RUN", "a"]));
    assert!(parse_sections(lines(&["# readme", "RUN", "a"])).is_none());
}

#[test]
fn blank_text_is_not_a_definition() {
    let (section, rest) = Section::from_lines(lines(&["", ""]));
    assert!(section.is_none());
    assert!(rest.is_empty());
    assert!(parse_sections(lines(&[""])).is_none());
}

#[test]
fn every_keyword_is_recognised() {
    let pairs = [
        ("OS", Kind::Os), ("DEP", Kind::Dep), ("ADD", Kind::Add), ("CMD", Kind::Cmd),
        ("COPY", Kind::Copy), ("ENTRYPOINT", Kind::EntryPoint), ("ENV", Kind::Env),
        ("EXPOSE", Kind::Expose), ("FROM", Kind::From), ("LABEL", Kind::Label),
        ("MAINTAINER", Kind::Maintainer), ("ONBUILD", Kind::Onbuild), ("RUN", Kind::Run),
        ("USER", Kind::User), ("VOLUME", Kind::Volume), ("WORKDIR", Kind::WorkDir),
    ];
    for (word, kind) in pairs.iter() {
        assert_eq!(Kind::from_keyword(word), Some(*kind));
    }
    assert_eq!(Kind::from_keyword("run"), None);
    assert_eq!(Kind::from_keyword("RUN "), None);
}
