use site_builder::tags::{comp_path_exec, is_html_path_exec, layout_path_exec};
use site_builder::text::replace_all_exec;

fn v(s: &str) -> Vec<u8> {
    s.as_bytes().to_vec()
}

#[test]
fn component_paths_are_normalized() {
    assert_eq!(comp_path_exec(&v("a")), v("el-components/a.html"));
    assert_eq!(comp_path_exec(&v("a.html")), v("el-components/a.html"));
    assert_eq!(comp_path_exec(&v("a.html.html")), v("el-components/a.html"));
    assert_eq!(comp_path_exec(&v("")), v("el-components/.html"));
    assert_eq!(comp_path_exec(&v("sub/part")), v("el-components/sub/part.html"));
}

#[test]
fn layout_paths_are_normalized() {
    assert_eq!(layout_path_exec(&v("base")), v("el-layouts/base.html"));
    assert_eq!(layout_path_exec(&v("base.html")), v("el-layouts/base.html"));
}

#[test]
fn replacement_covers_every_occurrence() {
    assert_eq!(replace_all_exec(&v("abcabc"), &v("b"), &v("XY")), v("aXYcaXYc"));
    assert_eq!(replace_all_exec(&v("aaa"), &v("aa"), &v("X")), v("Xa"));
    assert_eq!(replace_all_exec(&v("none"), &v("zz"), &v("X")), v("none"));
    assert_eq!(replace_all_exec(&v("xx"), &v("x"), &v("")), v(""));
}

#[test]
fn html_extension_detection() {
    assert!(is_html_path_exec(&v("index.html")));
    assert!(is_html_path_exec(&v("a/b/c.html")));
    assert!(is_html_path_exec(&v("a.b.html")));
    assert!(!is_html_path_exec(&v("style.css")));
    assert!(!is_html_path_exec(&v(".html")));
    assert!(!is_html_path_exec(&v("dir/.html")));
    assert!(!is_html_path_exec(&v("page.HTML")));
    assert!(!is_html_path_exec(&v("html")));
}
