//! The fixed tag grammar: a component reference (an opening marker
//! with a `src` attribute, inner fallback text, a closing marker), a
//! layout reference (same shape with a `name` attribute), and the
//! self-closing layout placeholder. Matching is plain text search; no
//! nesting is interpreted at this level.

use vstd::prelude::*;
use crate::text::{
    copy_range, copy_vec, find_byte, find_byte_exec, find_lit, find_lit_exec, is_ws, is_ws_exec,
    lemma_find_byte_bounds, lemma_find_lit_bounds, lemma_ws_end_bounds, lit_at, lit_at_exec,
    push_range, vec_eq, ws_end, ws_end_exec,
};

verus! {

pub open spec fn comp_open() -> Seq<u8> {
    // <el-component
    seq![60u8, 101u8, 108u8, 45u8, 99u8, 111u8, 109u8, 112u8, 111u8, 110u8, 101u8, 110u8, 116u8]
}

pub open spec fn comp_close() -> Seq<u8> {
    // </el-component>
    seq![60u8, 47u8, 101u8, 108u8, 45u8, 99u8, 111u8, 109u8, 112u8, 111u8, 110u8, 101u8, 110u8, 116u8, 62u8]
}

pub open spec fn attr_src() -> Seq<u8> {
    // src="
    seq![115u8, 114u8, 99u8, 61u8, 34u8]
}

pub open spec fn layout_open() -> Seq<u8> {
    // <el-layout
    seq![60u8, 101u8, 108u8, 45u8, 108u8, 97u8, 121u8, 111u8, 117u8, 116u8]
}

pub open spec fn layout_close() -> Seq<u8> {
    // </el-layout>
    seq![60u8, 47u8, 101u8, 108u8, 45u8, 108u8, 97u8, 121u8, 111u8, 117u8, 116u8, 62u8]
}

pub open spec fn attr_name() -> Seq<u8> {
    // name="
    seq![110u8, 97u8, 109u8, 101u8, 61u8, 34u8]
}

pub open spec fn content_open() -> Seq<u8> {
    // <el-content
    seq![60u8, 101u8, 108u8, 45u8, 99u8, 111u8, 110u8, 116u8, 101u8, 110u8, 116u8]
}

pub open spec fn slash_gt() -> Seq<u8> {
    // />
    seq![47u8, 62u8]
}

pub open spec fn comp_prefix() -> Seq<u8> {
    // el-components/
    seq![101u8, 108u8, 45u8, 99u8, 111u8, 109u8, 112u8, 111u8, 110u8, 101u8, 110u8, 116u8, 115u8, 47u8]
}

pub open spec fn layout_prefix() -> Seq<u8> {
    // el-layouts/
    seq![101u8, 108u8, 45u8, 108u8, 97u8, 121u8, 111u8, 117u8, 116u8, 115u8, 47u8]
}

pub open spec fn html_suffix() -> Seq<u8> {
    // .html
    seq![46u8, 104u8, 116u8, 109u8, 108u8]
}

pub open spec fn comp_dir() -> Seq<u8> {
    // el-components
    seq![101u8, 108u8, 45u8, 99u8, 111u8, 109u8, 112u8, 111u8, 110u8, 101u8, 110u8, 116u8, 115u8]
}

pub open spec fn layout_dir() -> Seq<u8> {
    // el-layouts
    seq![101u8, 108u8, 45u8, 108u8, 97u8, 121u8, 111u8, 117u8, 116u8, 115u8]
}

fn push_all(dst: &mut Vec<u8>, src: &Vec<u8>)
    ensures
        final(dst)@ == old(dst)@ + src@,
{
    push_range(dst, src, 0, src.len());
    proof {
        assert(src@.subrange(0, src@.len() as int) =~= src@);
    }
}

fn comp_open_vec() -> (r: Vec<u8>)
    ensures
        r@ == comp_open(),
{
    let mut v: Vec<u8> = Vec::new();
    v.push(60u8);
    v.push(101u8);
    v.push(108u8);
    v.push(45u8);
    v.push(99u8);
    v.push(111u8);
    v.push(109u8);
    v.push(112u8);
    v.push(111u8);
    v.push(110u8);
    v.push(101u8);
    v.push(110u8);
    v.push(116u8);
    proof {
        assert(v@ =~= comp_open());
    }
    v
}

fn comp_close_vec() -> (r: Vec<u8>)
    ensures
        r@ == comp_close(),
{
    let mut v: Vec<u8> = Vec::new();
    v.push(60u8);
    v.push(47u8);
    v.push(101u8);
    v.push(108u8);
    v.push(45u8);
    v.push(99u8);
    v.push(111u8);
    v.push(109u8);
    v.push(112u8);
    v.push(111u8);
    v.push(110u8);
    v.push(101u8);
    v.push(110u8);
    v.push(116u8);
    v.push(62u8);
    proof {
        assert(v@ =~= comp_close());
    }
    v
}

fn attr_src_vec() -> (r: Vec<u8>)
    ensures
        r@ == attr_src(),
{
    let mut v: Vec<u8> = Vec::new();
    v.push(115u8);
    v.push(114u8);
    v.push(99u8);
    v.push(61u8);
    v.push(34u8);
    proof {
        assert(v@ =~= attr_src());
    }
    v
}

fn layout_open_vec() -> (r: Vec<u8>)
    ensures
        r@ == layout_open(),
{
    let mut v: Vec<u8> = Vec::new();
    v.push(60u8);
    v.push(101u8);
    v.push(108u8);
    v.push(45u8);
    v.push(108u8);
    v.push(97u8);
    v.push(121u8);
    v.push(111u8);
    v.push(117u8);
    v.push(116u8);
    proof {
        assert(v@ =~= layout_open());
    }
    v
}

fn layout_close_vec() -> (r: Vec<u8>)
    ensures
        r@ == layout_close(),
{
    let mut v: Vec<u8> = Vec::new();
    v.push(60u8);
    v.push(47u8);
    v.push(101u8);
    v.push(108u8);
    v.push(45u8);
    v.push(108u8);
    v.push(97u8);
    v.push(121u8);
    v.push(111u8);
    v.push(117u8);
    v.push(116u8);
    v.push(62u8);
    proof {
        assert(v@ =~= layout_close());
    }
    v
}

fn attr_name_vec() -> (r: Vec<u8>)
    ensures
        r@ == attr_name(),
{
    let mut v: Vec<u8> = Vec::new();
    v.push(110u8);
    v.push(97u8);
    v.push(109u8);
    v.push(101u8);
    v.push(61u8);
    v.push(34u8);
    proof {
        assert(v@ =~= attr_name());
    }
    v
}

fn content_open_vec() -> (r: Vec<u8>)
    ensures
        r@ == content_open(),
{
    let mut v: Vec<u8> = Vec::new();
    v.push(60u8);
    v.push(101u8);
    v.push(108u8);
    v.push(45u8);
    v.push(99u8);
    v.push(111u8);
    v.push(110u8);
    v.push(116u8);
    v.push(101u8);
    v.push(110u8);
    v.push(116u8);
    proof {
        assert(v@ =~= content_open());
    }
    v
}

fn slash_gt_vec() -> (r: Vec<u8>)
    ensures
        r@ == slash_gt(),
{
    let mut v: Vec<u8> = Vec::new();
    v.push(47u8);
    v.push(62u8);
    proof {
        assert(v@ =~= slash_gt());
    }
    v
}

fn comp_prefix_vec() -> (r: Vec<u8>)
    ensures
        r@ == comp_prefix(),
{
    let mut v: Vec<u8> = Vec::new();
    v.push(101u8);
    v.push(108u8);
    v.push(45u8);
    v.push(99u8);
    v.push(111u8);
    v.push(109u8);
    v.push(112u8);
    v.push(111u8);
    v.push(110u8);
    v.push(101u8);
    v.push(110u8);
    v.push(116u8);
    v.push(115u8);
    v.push(47u8);
    proof {
        assert(v@ =~= comp_prefix());
    }
    v
}

fn layout_prefix_vec() -> (r: Vec<u8>)
    ensures
        r@ == layout_prefix(),
{
    let mut v: Vec<u8> = Vec::new();
    v.push(101u8);
    v.push(108u8);
    v.push(45u8);
    v.push(108u8);
    v.push(97u8);
    v.push(121u8);
    v.push(111u8);
    v.push(117u8);
    v.push(116u8);
    v.push(115u8);
    v.push(47u8);
    proof {
        assert(v@ =~= layout_prefix());
    }
    v
}

fn html_suffix_vec() -> (r: Vec<u8>)
    ensures
        r@ == html_suffix(),
{
    let mut v: Vec<u8> = Vec::new();
    v.push(46u8);
    v.push(104u8);
    v.push(116u8);
    v.push(109u8);
    v.push(108u8);
    proof {
        assert(v@ =~= html_suffix());
    }
    v
}

fn comp_dir_vec() -> (r: Vec<u8>)
    ensures
        r@ == comp_dir(),
{
    let mut v: Vec<u8> = Vec::new();
    v.push(101u8);
    v.push(108u8);
    v.push(45u8);
    v.push(99u8);
    v.push(111u8);
    v.push(109u8);
    v.push(112u8);
    v.push(111u8);
    v.push(110u8);
    v.push(101u8);
    v.push(110u8);
    v.push(116u8);
    v.push(115u8);
    proof {
        assert(v@ =~= comp_dir());
    }
    v
}

fn layout_dir_vec() -> (r: Vec<u8>)
    ensures
        r@ == layout_dir(),
{
    let mut v: Vec<u8> = Vec::new();
    v.push(101u8);
    v.push(108u8);
    v.push(45u8);
    v.push(108u8);
    v.push(97u8);
    v.push(121u8);
    v.push(111u8);
    v.push(117u8);
    v.push(116u8);
    v.push(115u8);
    proof {
        assert(v@ =~= layout_dir());
    }
    v
}

/// A reference tag matched inside raw content: the full matched span
/// `[start, end)`, the attribute value (the referenced name), and the
/// inner text between the opening and closing markers.
pub struct TagM {
    pub start: int,
    pub end: int,
    pub name: Seq<u8>,
    pub inner: Seq<u8>,
}

/// Parses one reference tag starting exactly at `i`: the opening
/// marker, at least one whitespace byte, the attribute marker, the
/// quoted name (up to the first quote), optional whitespace, `>`, then
/// the shortest inner text up to the first closing marker.
pub open spec fn tag_at(s: Seq<u8>, i: int, open: Seq<u8>, attr: Seq<u8>, close: Seq<u8>) -> Option<
    TagM,
> {
    if lit_at(s, i, open) && i + open.len() < s.len() && is_ws(s[i + open.len()]) {
        let a = ws_end(s, i + open.len());
        if lit_at(s, a, attr) {
            match find_byte(s, a + attr.len(), 34u8) {
                None => None,
                Some(q) => {
                    let c = ws_end(s, q + 1);
                    if c < s.len() && s[c] == 62u8 {
                        match find_lit(s, c + 1, close) {
                            None => None,
                            Some(e) => Some(
                                TagM {
                                    start: i,
                                    end: e + close.len(),
                                    name: s.subrange(a + attr.len(), q),
                                    inner: s.subrange(c + 1, e),
                                },
                            ),
                        }
                    } else {
                        None
                    }
                },
            }
        } else {
            None
        }
    } else {
        None
    }
}

pub proof fn lemma_tag_at_bounds(s: Seq<u8>, i: int, open: Seq<u8>, attr: Seq<u8>, close: Seq<u8>)
    ensures
        tag_at(s, i, open, attr, close) matches Some(m) ==> m.start == i && i < m.end
            && m.end <= s.len(),
{
    if tag_at(s, i, open, attr, close) is Some {
        let w0 = i + open.len();
        lemma_ws_end_bounds(s, w0);
        let a = ws_end(s, w0);
        let q = find_byte(s, a + attr.len(), 34u8)->Some_0;
        lemma_find_byte_bounds(s, a + attr.len(), 34u8);
        lemma_ws_end_bounds(s, q + 1);
        let c = ws_end(s, q + 1);
        lemma_find_lit_bounds(s, c + 1, close);
    }
}

/// The leftmost reference tag starting at or after `i`.
pub open spec fn first_tag_from(
    s: Seq<u8>,
    i: int,
    open: Seq<u8>,
    attr: Seq<u8>,
    close: Seq<u8>,
) -> Option<TagM>
    decreases s.len() - i,
{
    if i < 0 || i >= s.len() {
        None
    } else if tag_at(s, i, open, attr, close) is Some {
        tag_at(s, i, open, attr, close)
    } else {
        first_tag_from(s, i + 1, open, attr, close)
    }
}

pub proof fn lemma_first_tag_bounds(
    s: Seq<u8>,
    i: int,
    open: Seq<u8>,
    attr: Seq<u8>,
    close: Seq<u8>,
)
    ensures
        first_tag_from(s, i, open, attr, close) matches Some(m) ==> i <= m.start && m.start < m.end
            && m.end <= s.len() && tag_at(s, m.start, open, attr, close) == Some(m),
    decreases s.len() - i,
{
    if 0 <= i < s.len() {
        if tag_at(s, i, open, attr, close) is Some {
            lemma_tag_at_bounds(s, i, open, attr, close);
        } else {
            lemma_first_tag_bounds(s, i + 1, open, attr, close);
        }
    }
}

/// All reference tags of `s` from `i` on, leftmost first, each next
/// search resuming at the end of the previous match.
pub open spec fn tags_from(s: Seq<u8>, i: int, open: Seq<u8>, attr: Seq<u8>, close: Seq<u8>) -> Seq<
    TagM,
>
    decreases s.len() - i,
    via tags_from_dec
{
    match first_tag_from(s, i, open, attr, close) {
        None => seq![],
        Some(m) => seq![m] + tags_from(s, m.end, open, attr, close),
    }
}

#[via_fn]
proof fn tags_from_dec(s: Seq<u8>, i: int, open: Seq<u8>, attr: Seq<u8>, close: Seq<u8>) {
    lemma_first_tag_bounds(s, i, open, attr, close);
}

/// All component-reference tags of `s`, leftmost first.
pub open spec fn comp_tags(s: Seq<u8>) -> Seq<TagM> {
    tags_from(s, 0, comp_open(), attr_src(), comp_close())
}

/// The first layout-reference tag of `s`, if any.
pub open spec fn first_layout_tag(s: Seq<u8>) -> Option<TagM> {
    first_tag_from(s, 0, layout_open(), attr_name(), layout_close())
}

/// The exact text a match covers; substitution replaces every literal
/// occurrence of this span.
pub open spec fn span_of(s: Seq<u8>, m: TagM) -> Seq<u8> {
    s.subrange(m.start, m.end)
}

/// A matched reference tag as executable data.
pub struct TagMatch {
    pub start: usize,
    pub end: usize,
    pub name: Vec<u8>,
    pub inner: Vec<u8>,
}

impl View for TagMatch {
    type V = TagM;

    open spec fn view(&self) -> TagM {
        TagM { start: self.start as int, end: self.end as int, name: self.name@, inner: self.inner@ }
    }
}

pub fn tag_at_exec(
    s: &Vec<u8>,
    i: usize,
    open: &Vec<u8>,
    attr: &Vec<u8>,
    close: &Vec<u8>,
) -> (r: Option<TagMatch>)
    requires
        close@.len() > 0,
    ensures
        r is Some <==> tag_at(s@, i as int, open@, attr@, close@) is Some,
        r matches Some(m) ==> tag_at(s@, i as int, open@, attr@, close@) == Some(m@) && m.start == i
            && i < m.end && m.end <= s@.len(),
{
    let n = s.len();
    if !lit_at_exec(s, i, open) {
        return None;
    }
    let w0 = i + open.len();
    if w0 >= n {
        return None;
    }
    if !is_ws_exec(s[w0]) {
        return None;
    }
    let a = ws_end_exec(s, w0);
    if !lit_at_exec(s, a, attr) {
        return None;
    }
    let q = match find_byte_exec(s, a + attr.len(), 34u8) {
        None => {
            return None;
        },
        Some(q) => q,
    };
    let c = ws_end_exec(s, q + 1);
    if c >= s.len() {
        return None;
    }
    if s[c] != 62u8 {
        return None;
    }
    let e = match find_lit_exec(s, c + 1, close) {
        None => {
            return None;
        },
        Some(e) => e,
    };
    let name = copy_range(s, a + attr.len(), q);
    let inner = copy_range(s, c + 1, e);
    Some(TagMatch { start: i, end: e + close.len(), name, inner })
}

pub fn first_tag_from_exec(
    s: &Vec<u8>,
    from: usize,
    open: &Vec<u8>,
    attr: &Vec<u8>,
    close: &Vec<u8>,
) -> (r: Option<TagMatch>)
    requires
        close@.len() > 0,
    ensures
        r is Some <==> first_tag_from(s@, from as int, open@, attr@, close@) is Some,
        r matches Some(m) ==> first_tag_from(s@, from as int, open@, attr@, close@) == Some(m@)
            && from <= m.start && m.start < m.end && m.end <= s@.len(),
{
    let mut k: usize = from;
    while k < s.len()
        invariant
            from <= k,
            close@.len() > 0,
            first_tag_from(s@, from as int, open@, attr@, close@) == first_tag_from(
                s@,
                k as int,
                open@,
                attr@,
                close@,
            ),
        decreases s@.len() - k,
    {
        match tag_at_exec(s, k, open, attr, close) {
            Some(m) => {
                return Some(m);
            },
            None => {
                k += 1;
            },
        }
    }
    None
}

/// Views of a scanned match list.
pub open spec fn tms_view(ms: Seq<TagMatch>) -> Seq<TagM> {
    ms.map_values(|m: TagMatch| m@)
}

/// Scans `s` once, left to right, for every component reference.
pub fn comp_tags_exec(s: &Vec<u8>) -> (r: Vec<TagMatch>)
    ensures
        tms_view(r@) == comp_tags(s@),
        forall|k: int| 0 <= k < r@.len() ==> r@[k].start < r@[k].end && r@[k].end <= s@.len(),
{
    let open = comp_open_vec();
    let attr = attr_src_vec();
    let close = comp_close_vec();
    let mut out: Vec<TagMatch> = Vec::new();
    let mut pos: usize = 0;
    proof {
        assert(tms_view(out@) + tags_from(s@, 0, comp_open(), attr_src(), comp_close()) =~= comp_tags(
            s@,
        ));
    }
    loop
        invariant
            pos <= s@.len(),
            open@ == comp_open(),
            attr@ == attr_src(),
            close@ == comp_close(),
            comp_tags(s@) == tms_view(out@) + tags_from(
                s@,
                pos as int,
                comp_open(),
                attr_src(),
                comp_close(),
            ),
            forall|k: int| 0 <= k < out@.len() ==> out@[k].start < out@[k].end && out@[k].end
                <= s@.len(),
        decreases s@.len() - pos,
    {
        match first_tag_from_exec(s, pos, &open, &attr, &close) {
            None => {
                proof {
                    assert(comp_tags(s@) =~= tms_view(out@));
                }
                return out;
            },
            Some(m) => {
                let e = m.end;
                let ghost prev = out@;
                out.push(m);
                proof {
                    assert(tms_view(out@) =~= tms_view(prev).push(m@));
                    assert(tms_view(prev).push(m@) + tags_from(
                        s@,
                        m@.end,
                        comp_open(),
                        attr_src(),
                        comp_close(),
                    ) =~= tms_view(prev) + (seq![m@] + tags_from(
                        s@,
                        m@.end,
                        comp_open(),
                        attr_src(),
                        comp_close(),
                    )));
                }
                pos = e;
            },
        }
    }
}

/// The first layout reference of `s`, if any.
pub fn first_layout_tag_exec(s: &Vec<u8>) -> (r: Option<TagMatch>)
    ensures
        r is Some <==> first_layout_tag(s@) is Some,
        r matches Some(m) ==> first_layout_tag(s@) == Some(m@) && m.start < m.end && m.end
            <= s@.len(),
{
    let open = layout_open_vec();
    let attr = attr_name_vec();
    let close = layout_close_vec();
    first_tag_from_exec(s, 0, &open, &attr, &close)
}

/// A referenced name with every trailing `.html` stripped; the suffix
/// is then re-appended once, so names always resolve to `<name>.html`.
pub open spec fn strip_html(name: Seq<u8>) -> Seq<u8>
    decreases name.len(),
{
    if name.len() >= 5 && name.subrange(name.len() - 5, name.len() as int) == html_suffix() {
        strip_html(name.subrange(0, name.len() - 5))
    } else {
        name
    }
}

pub fn strip_html_exec(name: &Vec<u8>) -> (r: Vec<u8>)
    ensures
        r@ == strip_html(name@),
{
    let suf = html_suffix_vec();
    let mut end: usize = name.len();
    let mut go = true;
    proof {
        assert(name@.subrange(0, name@.len() as int) =~= name@);
    }
    while go
        invariant
            end <= name@.len(),
            suf@ == html_suffix(),
            strip_html(name@) == strip_html(name@.subrange(0, end as int)),
            !go ==> strip_html(name@.subrange(0, end as int)) == name@.subrange(0, end as int),
        decreases end, (if go { 1int } else { 0int }),
    {
        let ghost cur = name@.subrange(0, end as int);
        if end >= 5 && lit_at_exec(name, end - 5, &suf) {
            proof {
                assert(cur.subrange(cur.len() - 5, cur.len() as int) =~= name@.subrange(
                    end - 5,
                    end as int,
                ));
                assert(name@.subrange(end - 5, end as int) == html_suffix());
                assert(cur.subrange(0, end - 5) =~= name@.subrange(0, end - 5));
            }
            end -= 5;
        } else {
            proof {
                if cur.len() >= 5 {
                    assert(cur.subrange(cur.len() - 5, cur.len() as int) =~= name@.subrange(
                        end - 5,
                        end as int,
                    ));
                }
            }
            go = false;
        }
    }
    copy_range(name, 0, end)
}

/// The source path a component name resolves to.
pub open spec fn comp_path_of(name: Seq<u8>) -> Seq<u8> {
    comp_prefix() + strip_html(name) + html_suffix()
}

/// The source path a layout name resolves to.
pub open spec fn layout_path_of(name: Seq<u8>) -> Seq<u8> {
    layout_prefix() + strip_html(name) + html_suffix()
}

pub fn comp_path_exec(name: &Vec<u8>) -> (r: Vec<u8>)
    ensures
        r@ == comp_path_of(name@),
{
    let mut v = comp_prefix_vec();
    let core = strip_html_exec(name);
    push_all(&mut v, &core);
    let suf = html_suffix_vec();
    push_all(&mut v, &suf);
    v
}

pub fn layout_path_exec(name: &Vec<u8>) -> (r: Vec<u8>)
    ensures
        r@ == layout_path_of(name@),
{
    let mut v = layout_prefix_vec();
    let core = strip_html_exec(name);
    push_all(&mut v, &core);
    let suf = html_suffix_vec();
    push_all(&mut v, &suf);
    v
}

/// A layout placeholder starting exactly at `i`; yields the position
/// just past its closing `/>`.
pub open spec fn placeholder_at(s: Seq<u8>, i: int) -> Option<int> {
    if lit_at(s, i, content_open()) {
        let c = ws_end(s, i + content_open().len());
        if lit_at(s, c, slash_gt()) {
            Some(c + 2)
        } else {
            None
        }
    } else {
        None
    }
}

/// The leftmost placeholder at or after `i`, as (start, end).
pub open spec fn first_placeholder_from(s: Seq<u8>, i: int) -> Option<(int, int)>
    decreases s.len() - i,
{
    if i < 0 || i >= s.len() {
        None
    } else if placeholder_at(s, i) is Some {
        Some((i, placeholder_at(s, i)->Some_0))
    } else {
        first_placeholder_from(s, i + 1)
    }
}

/// A layout's resolved text with its first placeholder replaced by the
/// referencing page's captured body; without a placeholder the text
/// stands and the body is dropped.
pub open spec fn replace_placeholder(s: Seq<u8>, body: Seq<u8>) -> Seq<u8> {
    match first_placeholder_from(s, 0) {
        None => s,
        Some((a, b)) => s.subrange(0, a) + body + s.subrange(b, s.len() as int),
    }
}

fn placeholder_at_exec(s: &Vec<u8>, i: usize) -> (r: Option<usize>)
    ensures
        match r {
            Some(e) => placeholder_at(s@, i as int) == Some(e as int) && i < e <= s@.len(),
            None => placeholder_at(s@, i as int) is None,
        },
{
    let open = content_open_vec();
    let tail = slash_gt_vec();
    if !lit_at_exec(s, i, &open) {
        return None;
    }
    let n = s.len();
    let c = ws_end_exec(s, i + open.len());
    if !lit_at_exec(s, c, &tail) {
        return None;
    }
    Some(c + 2)
}

fn first_placeholder_exec(s: &Vec<u8>) -> (r: Option<(usize, usize)>)
    ensures
        match r {
            Some(p) => first_placeholder_from(s@, 0) == Some((p.0 as int, p.1 as int)) && p.0 < p.1
                <= s@.len(),
            None => first_placeholder_from(s@, 0) is None,
        },
{
    let mut k: usize = 0;
    while k < s.len()
        invariant
            first_placeholder_from(s@, 0) == first_placeholder_from(s@, k as int),
        decreases s@.len() - k,
    {
        match placeholder_at_exec(s, k) {
            Some(e) => {
                return Some((k, e));
            },
            None => {
                k += 1;
            },
        }
    }
    None
}

/// The layout's text with its first placeholder, if any, replaced by
/// the page body.
pub fn replace_placeholder_exec(s: &Vec<u8>, body: &Vec<u8>) -> (r: Vec<u8>)
    ensures
        r@ == replace_placeholder(s@, body@),
{
    match first_placeholder_exec(s) {
        None => copy_vec(s),
        Some(p) => {
            let mut out = copy_range(s, 0, p.0);
            push_all(&mut out, body);
            push_range(&mut out, s, p.1, s.len());
            out
        },
    }
}

/// A path names an HTML page: its file name carries the `.html`
/// extension (a bare `.html` file name has no stem and does not).
pub open spec fn is_html_path(s: Seq<u8>) -> bool {
    s.len() >= 6 && s.subrange(s.len() - 5, s.len() as int) == html_suffix() && s[s.len() - 6]
        != 47u8
}

pub fn is_html_path_exec(path: &Vec<u8>) -> (r: bool)
    ensures
        r == is_html_path(path@),
{
    let n = path.len();
    if n < 6 {
        return false;
    }
    let suf = html_suffix_vec();
    if !lit_at_exec(path, n - 5, &suf) {
        return false;
    }
    path[n - 6] != 47u8
}

/// `s` lies at or under the directory `dir`.
pub open spec fn path_under(s: Seq<u8>, dir: Seq<u8>) -> bool {
    s == dir || (s.len() > dir.len() && s.subrange(0, dir.len() as int) == dir && s[dir.len() as int]
        == 47u8)
}

/// Files under the components and layouts pools are never walked as
/// standalone pages.
pub open spec fn ignored_dir(s: Seq<u8>) -> bool {
    path_under(s, comp_dir()) || path_under(s, layout_dir())
}

fn path_under_exec(s: &Vec<u8>, dir: &Vec<u8>) -> (r: bool)
    ensures
        r == path_under(s@, dir@),
{
    if vec_eq(s, dir) {
        return true;
    }
    if s.len() <= dir.len() {
        return false;
    }
    if !lit_at_exec(s, 0, dir) {
        return false;
    }
    s[dir.len()] == 47u8
}

pub fn ignored_dir_exec(s: &Vec<u8>) -> (r: bool)
    ensures
        r == ignored_dir(s@),
{
    let c = comp_dir_vec();
    let l = layout_dir_vec();
    path_under_exec(s, &c) || path_under_exec(s, &l)
}

} // verus!
