use kickoff::selection::{
    elements_from_lines, parse_line, parse_usize_str, Element, ElementList, History, HistoryEntry,
};

fn elem(name: &str, value: &str, base_score: usize) -> Element {
    Element { name: name.to_string(), value: value.to_string(), base_score }
}

#[test]
fn parse_line_test() {
    assert_eq!(
        parse_line("foobar"),
        Some(("foobar".to_string(), None))
    );
    assert_eq!(
        parse_line("foo=bar"),
        Some(("foo".to_string(), Some("bar".to_string())))
    );
    assert_eq!(
        parse_line("foo=bar\"baz\""),
        Some(("foo".to_string(), Some("bar\"baz\"".to_string())))
    );
    assert_eq!(
        parse_line(
            r#"Desktop: Firefox Developer Edition - New Window=/usr/lib/firefox-developer-edition/firefox --class="firefoxdeveloperedition" --new-window %u"#
        ),
        Some((
            "Desktop: Firefox Developer Edition - New Window".to_string(),
            Some(
                r#"/usr/lib/firefox-developer-edition/firefox --class="firefoxdeveloperedition" --new-window %u"#.to_string()
            )
        ))
    );
}

#[test]
fn line_directive_aggregation() {
    let lines = vec![
        "%base_score=5".to_string(),
        "ls".to_string(),
        "name=echo hi".to_string(),
    ];
    let elems = elements_from_lines(&lines);
    assert_eq!(elems.len(), 2);
    assert_eq!(elems[0], elem("ls", "ls", 5));
    assert_eq!(elems[1], elem("name", "echo hi", 5));
}

#[test]
fn line_directive_details() {
    let lines = vec![
        "  spaced  ".to_string(),
        "".to_string(),
        "%base_score=bad".to_string(),
        "after".to_string(),
        "%base_score=+7".to_string(),
        "k = v = w ".to_string(),
    ];
    let elems = elements_from_lines(&lines);
    assert_eq!(elems.len(), 3);
    assert_eq!(elems[0], elem("spaced", "spaced", 0));
    // a non-numeric directive value leaves the running score unchanged
    assert_eq!(elems[1], elem("after", "after", 0));
    // the value may itself contain `=`: only the first one splits
    assert_eq!(elems[2], elem("k", "v = w", 7));
}

#[test]
fn parse_usize_str_works() {
    assert_eq!(parse_usize_str("123"), Some(123));
    assert_eq!(parse_usize_str("+9"), Some(9));
    assert_eq!(parse_usize_str(""), None);
    assert_eq!(parse_usize_str("+"), None);
    assert_eq!(parse_usize_str("12a"), None);
    assert_eq!(parse_usize_str("99999999999999999999999"), None);
}

#[test]
fn merge_history_overwrites_and_appends() {
    let mut list = ElementList::from_elements(vec![
        elem("vim", "vim", 0),
        elem("emacs", "emacs", 2),
    ]);
    let history = History::from_entries(vec![
        HistoryEntry { name: "vim".to_string(), value: "vim".to_string(), num_used: 9 },
        HistoryEntry { name: "ed".to_string(), value: "ed".to_string(), num_used: 3 },
    ]);
    list.merge_history(&history);
    let v = list.as_ref_vec();
    assert_eq!(v.len(), 3);
    assert_eq!(*v[0], elem("vim", "vim", 9));
    assert_eq!(*v[1], elem("emacs", "emacs", 2));
    assert_eq!(*v[2], elem("ed", "ed", 3));
}

#[test]
fn merge_history_idempotent() {
    let history = History::from_entries(vec![
        HistoryEntry { name: "vim".to_string(), value: "vim".to_string(), num_used: 9 },
        HistoryEntry { name: "ed".to_string(), value: "ed".to_string(), num_used: 3 },
    ]);
    let mut once = ElementList::from_elements(vec![elem("vim", "vim", 0)]);
    once.merge_history(&history);
    let mut twice = ElementList::from_elements(vec![elem("vim", "vim", 0)]);
    twice.merge_history(&history);
    twice.merge_history(&history);
    let a = once.as_ref_vec();
    let b = twice.as_ref_vec();
    assert_eq!(a.len(), b.len());
    for i in 0..a.len() {
        assert_eq!(*a[i], *b[i]);
    }
}

#[test]
fn history_inc_counts_uses() {
    let mut h = History::new();
    h.inc(&elem("vim", "vim", 0));
    h.inc(&elem("vim", "vim", 0));
    h.inc(&elem("ed", "ed", 0));
    let v = h.as_vec();
    assert_eq!(v.len(), 2);
    assert_eq!(v[0].name, "vim");
    assert_eq!(v[0].num_used, 2);
    assert_eq!(v[1].name, "ed");
    assert_eq!(v[1].num_used, 1);
}

#[test]
fn sort_score_orders_descending() {
    let mut list = ElementList::from_elements(vec![
        elem("a", "a", 1),
        elem("b", "b", 5),
        elem("c", "c", 3),
    ]);
    list.sort_score();
    let v = list.as_ref_vec();
    assert_eq!(v[0].base_score, 5);
    assert_eq!(v[1].base_score, 3);
    assert_eq!(v[2].base_score, 1);
}

#[test]
fn search_excludes_non_subsequences() {
    let list = ElementList::from_elements(vec![
        elem("firefox", "firefox", 0),
        elem("files", "files", 0),
        elem("terminal", "terminal", 0),
    ]);
    let hits = list.search("fi");
    assert_eq!(hits.len(), 2);
    for e in &hits {
        assert_ne!(e.name, "terminal");
    }
    let none = list.search("zz");
    assert_eq!(none.len(), 0);
}

#[test]
fn search_empty_query_matches_everything() {
    let list = ElementList::from_elements(vec![
        elem("a", "a", 1),
        elem("b", "b", 9),
        elem("c", "c", 4),
    ]);
    let idx = list.search_indices("");
    assert_eq!(idx.len(), 3);
    // with an empty query the order collapses to base score
    assert_eq!(idx, vec![1, 2, 0]);
}

#[test]
fn search_prefers_higher_base_score() {
    let list = ElementList::from_elements(vec![
        elem("vim", "vim", 0),
        elem("vim-huge", "vim-huge", 1000),
    ]);
    let idx = list.search_indices("vim");
    assert_eq!(idx.len(), 2);
    assert_eq!(idx[0], 1);
}

#[test]
fn search_ranks_tighter_matches_first() {
    let list = ElementList::from_elements(vec![
        elem("a-x-b-x-c", "gapped", 0),
        elem("abc", "tight", 0),
    ]);
    let idx = list.search_indices("abc");
    assert_eq!(idx.len(), 2);
    // the contiguous match outscores the gapped one
    assert_eq!(idx[0], 1);
}

#[test]
fn search_empty_query_returns_every_candidate() {
    let list = ElementList::from_elements(vec![
        elem("a", "a", 1),
        elem("b", "b", 9),
        elem("c", "c", 4),
    ]);
    let hits = list.search("");
    assert_eq!(hits.len(), 3);
    // the ordering collapses to base score
    assert_eq!(hits[0].base_score, 9);
    assert_eq!(hits[1].base_score, 4);
    assert_eq!(hits[2].base_score, 1);
}
