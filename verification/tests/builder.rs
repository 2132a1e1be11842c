use site_builder::resolve::SiteBuilder;
use site_builder::store::{Event, PathMap};

fn v(s: &str) -> Vec<u8> {
    s.as_bytes().to_vec()
}

fn tree(files: &[(&str, &str)]) -> PathMap {
    let mut t = PathMap::new();
    for (p, c) in files {
        t.insert(v(p), v(c));
    }
    t
}

fn reads_of(events: &[Event], path: &str) -> usize {
    events
        .iter()
        .filter(|e| match e {
            Event::Read(p) => p == &v(path),
            _ => false,
        })
        .count()
}

fn cycles(events: &[Event]) -> usize {
    events
        .iter()
        .filter(|e| matches!(e, Event::Cycle(_)))
        .count()
}

fn read_fails(events: &[Event]) -> usize {
    events
        .iter()
        .filter(|e| matches!(e, Event::ReadFail(_)))
        .count()
}

#[test]
fn greeting_component_inlined() {
    let t = tree(&[
        ("el-components/greeting.html", "Hello, World!"),
        ("index.html", "<el-component src=\"greeting\"></el-component>"),
    ]);
    let mut b = SiteBuilder::new(t);
    let mut events = Vec::new();
    let out = b.process_file(&v("index.html"), &mut events);
    assert_eq!(out, v("Hello, World!"));
    assert_eq!(cycles(&events), 0);
    assert_eq!(read_fails(&events), 0);
}

#[test]
fn layout_wraps_page_body() {
    let t = tree(&[
        ("el-layouts/base.html", "<h1>Site</h1><el-content/>"),
        ("page.html", "<el-layout name=\"base\">Body text</el-layout>"),
    ]);
    let mut b = SiteBuilder::new(t);
    let mut events = Vec::new();
    let out = b.process_file(&v("page.html"), &mut events);
    assert_eq!(out, v("<h1>Site</h1>Body text"));
}

#[test]
fn indirect_cycle_terminates_with_diagnostic() {
    let t = tree(&[
        ("el-components/a.html", "<el-component src=\"b\"></el-component>"),
        ("el-components/b.html", "<el-component src=\"a\"></el-component>"),
        ("index.html", "<el-component src=\"a\"></el-component>"),
    ]);
    let mut b = SiteBuilder::new(t);
    let mut events = Vec::new();
    let out = b.process_file(&v("index.html"), &mut events);
    // b's reference to a is left literal, and that literal text is what
    // a's own reference site receives in turn.
    assert_eq!(out, v("<el-component src=\"a\"></el-component>"));
    assert_eq!(cycles(&events), 1);
    assert!(events.contains(&Event::Cycle(v("el-components/a.html"))));
}

#[test]
fn direct_self_reference_stays_literal() {
    let t = tree(&[
        (
            "el-components/loop.html",
            "<el-component src=\"loop\"></el-component>",
        ),
        ("index.html", "<el-component src=\"loop\"></el-component>"),
    ]);
    let mut b = SiteBuilder::new(t);
    let mut events = Vec::new();
    let out = b.process_file(&v("index.html"), &mut events);
    assert_eq!(out, v("<el-component src=\"loop\"></el-component>"));
    assert_eq!(cycles(&events), 1);
    assert!(events.contains(&Event::Cycle(v("el-components/loop.html"))));
}

#[test]
fn diamond_inclusion_reads_once() {
    let t = tree(&[
        ("el-components/c.html", "shared"),
        (
            "el-components/x.html",
            "[<el-component src=\"c\"></el-component>]",
        ),
        (
            "el-components/y.html",
            "(<el-component src=\"c\"></el-component>)",
        ),
        (
            "index.html",
            "<el-component src=\"x\"></el-component><el-component src=\"y\"></el-component>",
        ),
    ]);
    let mut b = SiteBuilder::new(t);
    let mut events = Vec::new();
    let out = b.process_file(&v("index.html"), &mut events);
    assert_eq!(out, v("[shared](shared)"));
    assert_eq!(reads_of(&events, "el-components/c.html"), 1);
}

#[test]
fn repeated_page_resolution_hits_cache() {
    let t = tree(&[
        ("el-components/greeting.html", "Hello"),
        ("index.html", "<el-component src=\"greeting\"></el-component>"),
    ]);
    let mut b = SiteBuilder::new(t);
    let mut events = Vec::new();
    let first = b.process_file(&v("index.html"), &mut events);
    let second = b.process_file(&v("index.html"), &mut events);
    assert_eq!(first, second);
    assert_eq!(reads_of(&events, "index.html"), 1);
    assert_eq!(reads_of(&events, "el-components/greeting.html"), 1);
}

#[test]
fn missing_component_yields_empty_site() {
    let t = tree(&[(
        "index.html",
        "a<el-component src=\"ghost\"></el-component>z",
    )]);
    let mut b = SiteBuilder::new(t);
    let mut events = Vec::new();
    let out = b.process_file(&v("index.html"), &mut events);
    assert_eq!(out, v("az"));
    assert_eq!(read_fails(&events), 1);
    assert!(events.contains(&Event::ReadFail(v("el-components/ghost.html"))));
}

#[test]
fn missing_page_yields_empty_output() {
    let t = tree(&[]);
    let mut b = SiteBuilder::new(t);
    let mut events = Vec::new();
    let out = b.process_file(&v("index.html"), &mut events);
    assert_eq!(out, Vec::<u8>::new());
    assert_eq!(read_fails(&events), 1);
}

#[test]
fn non_html_file_passes_through_verbatim() {
    let bytes = "body { color: #fff; }\n\u{1F600}";
    let t = tree(&[("assets/style.css", bytes)]);
    let mut b = SiteBuilder::new(t);
    let mut events = Vec::new();
    let out = b.process_file(&v("assets/style.css"), &mut events);
    assert_eq!(out, v(bytes));
    assert!(events.is_empty());
}

#[test]
fn hidden_html_file_is_not_a_page() {
    // a file named exactly ".html" has no stem, so it is copied, not resolved
    let t = tree(&[("dir/.html", "<el-component src=\"x\"></el-component>")]);
    let mut b = SiteBuilder::new(t);
    let mut events = Vec::new();
    let out = b.process_file(&v("dir/.html"), &mut events);
    assert_eq!(out, v("<el-component src=\"x\"></el-component>"));
    assert!(events.is_empty());
}

#[test]
fn acyclic_chain_fully_expanded() {
    let t = tree(&[
        ("el-components/c.html", "leaf"),
        ("el-components/b.html", "<el-component src=\"c\"></el-component>!"),
        ("el-components/a.html", "<el-component src=\"b\"></el-component>?"),
        ("index.html", "<el-component src=\"a\"></el-component>."),
    ]);
    let mut b = SiteBuilder::new(t);
    let mut events = Vec::new();
    let out = b.process_file(&v("index.html"), &mut events);
    assert_eq!(out, v("leaf!?."));
    let text = String::from_utf8(out).unwrap();
    assert!(!text.contains("<el-component"));
}

#[test]
fn fallback_inner_text_is_discarded() {
    let t = tree(&[
        ("el-components/x.html", "real"),
        ("index.html", "<el-component src=\"x\">fallback</el-component>"),
    ]);
    let mut b = SiteBuilder::new(t);
    let mut events = Vec::new();
    let out = b.process_file(&v("index.html"), &mut events);
    assert_eq!(out, v("real"));
}

#[test]
fn component_names_are_normalized() {
    let t = tree(&[
        ("el-components/x.html", "X"),
        (
            "index.html",
            "<el-component src=\"x.html\"></el-component><el-component src=\"x.html.html\"></el-component>",
        ),
    ]);
    let mut b = SiteBuilder::new(t);
    let mut events = Vec::new();
    let out = b.process_file(&v("index.html"), &mut events);
    assert_eq!(out, v("XX"));
    assert_eq!(reads_of(&events, "el-components/x.html"), 1);
}

#[test]
fn whitespace_inside_tags_is_accepted() {
    let t = tree(&[
        ("el-components/x.html", "X"),
        (
            "index.html",
            "<el-component \t\n src=\"x\"  >inner</el-component>",
        ),
    ]);
    let mut b = SiteBuilder::new(t);
    let mut events = Vec::new();
    let out = b.process_file(&v("index.html"), &mut events);
    assert_eq!(out, v("X"));
}

#[test]
fn only_first_layout_reference_is_honored() {
    let t = tree(&[
        ("el-layouts/one.html", "1:<el-content/>"),
        ("el-layouts/two.html", "2:<el-content/>"),
        (
            "page.html",
            "<el-layout name=\"one\">A</el-layout><el-layout name=\"two\">B</el-layout>",
        ),
    ]);
    let mut b = SiteBuilder::new(t);
    let mut events = Vec::new();
    let out = b.process_file(&v("page.html"), &mut events);
    assert_eq!(out, v("1:A"));
}

#[test]
fn layout_without_placeholder_drops_body() {
    let t = tree(&[
        ("el-layouts/bare.html", "static only"),
        ("page.html", "<el-layout name=\"bare\">dropped</el-layout>"),
    ]);
    let mut b = SiteBuilder::new(t);
    let mut events = Vec::new();
    let out = b.process_file(&v("page.html"), &mut events);
    assert_eq!(out, v("static only"));
}

#[test]
fn only_first_placeholder_is_replaced() {
    let t = tree(&[
        ("el-layouts/twice.html", "<el-content/>|<el-content/>"),
        ("page.html", "<el-layout name=\"twice\">B</el-layout>"),
    ]);
    let mut b = SiteBuilder::new(t);
    let mut events = Vec::new();
    let out = b.process_file(&v("page.html"), &mut events);
    assert_eq!(out, v("B|<el-content/>"));
}

#[test]
fn layout_resolves_its_own_components() {
    let t = tree(&[
        ("el-components/nav.html", "NAV"),
        (
            "el-layouts/base.html",
            "<el-component src=\"nav\"></el-component><el-content/>",
        ),
        ("page.html", "<el-layout name=\"base\">body</el-layout>"),
    ]);
    let mut b = SiteBuilder::new(t);
    let mut events = Vec::new();
    let out = b.process_file(&v("page.html"), &mut events);
    assert_eq!(out, v("NAVbody"));
}

#[test]
fn layouts_do_not_chain() {
    let t = tree(&[
        (
            "el-layouts/outer.html",
            "o:<el-content/>",
        ),
        (
            "el-layouts/inner.html",
            "<el-layout name=\"outer\">ignored</el-layout><el-content/>",
        ),
        ("page.html", "<el-layout name=\"inner\">B</el-layout>"),
    ]);
    let mut b = SiteBuilder::new(t);
    let mut events = Vec::new();
    let out = b.process_file(&v("page.html"), &mut events);
    // the inner layout's own layout-reference syntax stays literal
    assert_eq!(out, v("<el-layout name=\"outer\">ignored</el-layout>B"));
}

#[test]
fn identical_reference_spans_share_one_replacement() {
    let t = tree(&[
        ("el-components/x.html", "X"),
        (
            "index.html",
            "<el-component src=\"x\"></el-component>-<el-component src=\"x\"></el-component>",
        ),
    ]);
    let mut b = SiteBuilder::new(t);
    let mut events = Vec::new();
    let out = b.process_file(&v("index.html"), &mut events);
    assert_eq!(out, v("X-X"));
    assert_eq!(reads_of(&events, "el-components/x.html"), 1);
}

#[test]
fn pool_directories_are_ignored_by_the_walk() {
    let t = tree(&[]);
    let b = SiteBuilder::new(t);
    assert!(b.directory_to_ignore(&v("el-components")));
    assert!(b.directory_to_ignore(&v("el-components/deep/x.html")));
    assert!(b.directory_to_ignore(&v("el-layouts")));
    assert!(b.directory_to_ignore(&v("el-layouts/base.html")));
    assert!(!b.directory_to_ignore(&v("el-components2/x.html")));
    assert!(!b.directory_to_ignore(&v("pages")));
    assert!(!b.directory_to_ignore(&v("index.html")));
}

#[test]
fn unterminated_tags_are_not_references() {
    let t = tree(&[(
        "index.html",
        "<el-component src=\"x\">never closed",
    )]);
    let mut b = SiteBuilder::new(t);
    let mut events = Vec::new();
    let out = b.process_file(&v("index.html"), &mut events);
    assert_eq!(out, v("<el-component src=\"x\">never closed"));
    assert_eq!(read_fails(&events), 0);
}
