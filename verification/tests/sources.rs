use kickoff::sources::{
    dedup_elements_by_name, flatpak_elements, path_elements, snap_elements, split_lines,
    ElementListBuilder, SearchConfig,
};
use kickoff::selection::Element;

fn elem(name: &str, value: &str, base_score: usize) -> Element {
    Element { name: name.to_string(), value: value.to_string(), base_score }
}

#[test]
fn split_lines_matches_line_endings() {
    let lines = split_lines("a\nb\r\n\nc");
    assert_eq!(lines, vec!["a", "b", "", "c"]);
    assert_eq!(split_lines(""), Vec::<String>::new());
    assert_eq!(split_lines("x\n"), vec!["x"]);
}

#[test]
fn dedup_keeps_one_candidate_per_name_sorted() {
    let v = vec![
        elem("b", "first-b", 0),
        elem("a", "a", 0),
        elem("b", "second-b", 0),
        elem("c", "c", 0),
    ];
    let out = dedup_elements_by_name(&v);
    assert_eq!(out.len(), 3);
    assert_eq!(out[0].name, "a");
    assert_eq!(out[1].name, "b");
    assert_eq!(out[2].name, "c");
}

#[test]
fn path_elements_filters_hidden_and_sorts() {
    let names = vec![
        "zsh".to_string(),
        ".hidden".to_string(),
        "bash".to_string(),
        "zsh".to_string(),
    ];
    let out = path_elements(&names, false);
    assert_eq!(out.len(), 2);
    assert_eq!(out[0], elem("bash", "bash", 0));
    assert_eq!(out[1], elem("zsh", "zsh", 0));

    let with_hidden = path_elements(&names, true);
    assert_eq!(with_hidden.len(), 3);
    assert_eq!(with_hidden[0].name, ".hidden");
}

#[test]
fn snap_elements_skips_header_and_system_snaps() {
    let listing = "Name   Version  Rev\nfirefox  128  100\ncore22  x  1\nsnapd  2  2\n\nspotify  1  3\n";
    let out = snap_elements(listing);
    assert_eq!(out.len(), 2);
    assert_eq!(out[0], elem("firefox", "firefox", 0));
    assert_eq!(out[1], elem("spotify", "spotify", 0));
}

#[test]
fn flatpak_elements_parses_columns() {
    let listing = "org.mozilla.firefox\tFirefox\ncom.example.app\t\norg.gnome.Maps\tMaps\nnotab\n";
    let out = flatpak_elements(listing);
    assert_eq!(out.len(), 3);
    assert_eq!(out[0], elem("Firefox", "flatpak run org.mozilla.firefox", 0));
    // a blank display name falls back to the id's last segment
    assert_eq!(out[1], elem("app", "flatpak run com.example.app", 0));
    assert_eq!(out[2], elem("Maps", "flatpak run org.gnome.Maps", 0));
}

#[test]
fn parse_desktop_file_accepts_plain_entry() {
    let content = "[Desktop Entry]\nName=Editor\nExec=editor %U %f\nType=Application\n";
    let e = ElementListBuilder::parse_desktop_file(content).unwrap();
    assert_eq!(e, elem("Editor", "editor", 0));
}

#[test]
fn parse_desktop_file_discards_hidden_and_no_display() {
    let hidden = "[Desktop Entry]\nName=X\nExec=x\nHidden=true\n";
    assert_eq!(ElementListBuilder::parse_desktop_file(hidden), None);

    let nodisplay = "[Desktop Entry]\nName=X\nExec=x\nNoDisplay=TRUE\n";
    assert_eq!(ElementListBuilder::parse_desktop_file(nodisplay), None);

    let settings = "[Desktop Entry]\nName=Panel\nExec=panel\nNoDisplay=true\nType=Settings\n";
    assert_eq!(
        ElementListBuilder::parse_desktop_file(settings),
        Some(elem("Panel", "panel", 0))
    );

    let cosmic = "[Desktop Entry]\nName=Wifi\nExec=cosmic-settings wifi\nNoDisplay=true\n";
    assert_eq!(
        ElementListBuilder::parse_desktop_file(cosmic),
        Some(elem("Wifi", "cosmic-settings wifi", 0))
    );
}

#[test]
fn parse_desktop_file_reads_only_desktop_entry_section() {
    let content = "[Other]\nName=Wrong\n[Desktop Entry]\nName=Right\nExec=right\n[Action]\nExec=other\n";
    let e = ElementListBuilder::parse_desktop_file(content).unwrap();
    assert_eq!(e, elem("Right", "right", 0));

    let incomplete = "[Desktop Entry]\nName=OnlyName\n";
    assert_eq!(ElementListBuilder::parse_desktop_file(incomplete), None);
}

#[test]
fn builder_records_sources() {
    let mut b = ElementListBuilder::new();
    assert!(!b.from_stdin);
    b.add_stdin();
    b.add_snap();
    b.add_flatpak();
    b.add_desktop();
    b.add_path(SearchConfig { show_hidden_files: true });
    b.add_files(&["one".to_string(), "two".to_string()]);
    assert!(b.from_stdin && b.from_snap && b.from_flatpak && b.from_desktop && b.from_path);
    assert!(b.path_config.show_hidden_files);
    assert_eq!(b.from_file, vec!["one".to_string(), "two".to_string()]);
}
