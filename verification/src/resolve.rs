//! The resolution engine: recursive component expansion with cycle
//! detection and a memoized cache, followed by a single layout pass.
//!
//! `resolve_spec` is the mathematical account of one resolution: what
//! text comes out, how the cache grows, and which diagnostics are
//! emitted. The executable `SiteBuilder` methods are proved to return
//! exactly that account.

use vstd::prelude::*;
use vstd::set::axiom_set_remove_len;
use vstd::set_lib::lemma_len_subset;
use crate::store::{evs, Event, EventS, Guard, PathMap};
use crate::tags::{
    comp_path_exec, comp_path_of, comp_tags, comp_tags_exec, first_layout_tag,
    first_layout_tag_exec, ignored_dir, ignored_dir_exec, is_html_path, is_html_path_exec,
    layout_path_exec, layout_path_of, replace_placeholder, replace_placeholder_exec, span_of,
    tms_view, TagM, TagMatch,
};
use crate::text::{copy_range, copy_vec, replace_all, replace_all_exec};

verus! {

/// The outcome of one resolution step: the resolved text, the cache as
/// it stands afterwards, and the diagnostics emitted, in order.
pub struct RState {
    pub result: Seq<u8>,
    pub cache: Map<Seq<u8>, Seq<u8>>,
    pub events: Seq<EventS>,
}

/// Distinct source paths not yet on the active expansion chain; every
/// recursive descent moves one of them onto the chain.
pub open spec fn measure(tree: Map<Seq<u8>, Seq<u8>>, guard: Set<Seq<u8>>) -> nat {
    if tree.dom().finite() {
        tree.dom().difference(guard).len()
    } else {
        0
    }
}

pub proof fn lemma_measure_decreases(tree: Map<Seq<u8>, Seq<u8>>, guard: Set<Seq<u8>>, p: Seq<u8>)
    requires
        tree.dom().finite(),
        tree.dom().contains(p),
        !guard.contains(p),
    ensures
        measure(tree, guard.insert(p)) < measure(tree, guard),
{
    let d = tree.dom().difference(guard);
    lemma_len_subset(d, tree.dom());
    assert(tree.dom().difference(guard.insert(p)) =~= d.remove(p));
    axiom_set_remove_len(d, p);
}

/// Resolution of `path` against a fixed source `tree`, entered with
/// `cache` and the active-chain set `guard`: a cached path is answered
/// from the cache alone; an unreadable path reports the failure and
/// yields empty content; otherwise every component reference in the
/// raw text is substituted in order and the result is cached.
pub open spec fn resolve_spec(
    tree: Map<Seq<u8>, Seq<u8>>,
    cache: Map<Seq<u8>, Seq<u8>>,
    guard: Set<Seq<u8>>,
    path: Seq<u8>,
) -> RState
    decreases measure(tree, guard), 1int, 0int,
{
    if cache.contains_key(path) {
        RState { result: cache[path], cache: cache, events: seq![] }
    } else if !tree.contains_key(path) {
        RState { result: seq![], cache: cache, events: seq![EventS::ReadFail { path: path }] }
    } else {
        let text = tree[path];
        let st = subst_refs(tree, cache, guard, text, comp_tags(text), 0, text);
        RState {
            result: st.result,
            cache: st.cache.insert(path, st.result),
            events: seq![EventS::Read { path: path }] + st.events,
        }
    }
}

/// Folds the matches `ms[i..]` over `acc`: a referenced path already
/// on the active chain is a cycle (reported, span left literal); any
/// other reference is resolved and every literal occurrence of its
/// matched span in `acc` is replaced by the resolved content.
pub open spec fn subst_refs(
    tree: Map<Seq<u8>, Seq<u8>>,
    cache: Map<Seq<u8>, Seq<u8>>,
    guard: Set<Seq<u8>>,
    text: Seq<u8>,
    ms: Seq<TagM>,
    i: int,
    acc: Seq<u8>,
) -> RState
    decreases measure(tree, guard), 0int, ms.len() - i,
    via subst_refs_dec
{
    if i < 0 || i >= ms.len() {
        RState { result: acc, cache: cache, events: seq![] }
    } else {
        let cpath = comp_path_of(ms[i].name);
        let span = span_of(text, ms[i]);
        if guard.contains(cpath) {
            let st = subst_refs(tree, cache, guard, text, ms, i + 1, acc);
            RState {
                result: st.result,
                cache: st.cache,
                events: seq![EventS::Cycle { path: cpath }] + st.events,
            }
        } else if cache.contains_key(cpath) {
            subst_refs(tree, cache, guard, text, ms, i + 1, replace_all(acc, span, cache[cpath]))
        } else if !tree.contains_key(cpath) {
            let st = subst_refs(tree, cache, guard, text, ms, i + 1, replace_all(acc, span, seq![]));
            RState {
                result: st.result,
                cache: st.cache,
                events: seq![EventS::ReadFail { path: cpath }] + st.events,
            }
        } else if !tree.dom().finite() {
            subst_refs(tree, cache, guard, text, ms, i + 1, acc)
        } else {
            let sub = resolve_spec(tree, cache, guard.insert(cpath), cpath);
            let st = subst_refs(
                tree,
                sub.cache,
                guard,
                text,
                ms,
                i + 1,
                replace_all(acc, span, sub.result),
            );
            RState { result: st.result, cache: st.cache, events: sub.events + st.events }
        }
    }
}

#[via_fn]
proof fn subst_refs_dec(
    tree: Map<Seq<u8>, Seq<u8>>,
    cache: Map<Seq<u8>, Seq<u8>>,
    guard: Set<Seq<u8>>,
    text: Seq<u8>,
    ms: Seq<TagM>,
    i: int,
    acc: Seq<u8>,
) {
    if 0 <= i < ms.len() {
        let cpath = comp_path_of(ms[i].name);
        if !guard.contains(cpath) && !cache.contains_key(cpath) && tree.contains_key(cpath)
            && tree.dom().finite() {
            lemma_measure_decreases(tree, guard, cpath);
        }
    }
}

/// One layout pass over component-resolved page content: the first
/// layout reference, if any, selects a layout file, which is resolved
/// with a fresh guard; its first placeholder is replaced by the page's
/// captured body and the outcome replaces the page text entirely.
pub open spec fn layout_spec(
    tree: Map<Seq<u8>, Seq<u8>>,
    cache: Map<Seq<u8>, Seq<u8>>,
    content: Seq<u8>,
) -> RState {
    match first_layout_tag(content) {
        None => RState { result: content, cache: cache, events: seq![] },
        Some(m) => {
            let sub = resolve_spec(tree, cache, Set::empty(), layout_path_of(m.name));
            RState {
                result: replace_placeholder(sub.result, m.inner),
                cache: sub.cache,
                events: sub.events,
            }
        },
    }
}

/// The whole page pipeline: component resolution with a fresh guard,
/// then the layout pass.
pub open spec fn page_spec(
    tree: Map<Seq<u8>, Seq<u8>>,
    cache: Map<Seq<u8>, Seq<u8>>,
    path: Seq<u8>,
) -> RState {
    let a = resolve_spec(tree, cache, Set::empty(), path);
    let b = layout_spec(tree, a.cache, a.result);
    RState { result: b.result, cache: b.cache, events: a.events + b.events }
}

/// One build run: an in-memory source tree, fixed for the run, and the
/// cache of resolved content that grows with it.
pub struct SiteBuilder {
    tree: PathMap,
    cache: PathMap,
}

impl SiteBuilder {
    /// The source tree, as path to raw content.
    pub closed spec fn tree_v(&self) -> Map<Seq<u8>, Seq<u8>> {
        self.tree@
    }

    /// The resolution cache, as path to resolved content.
    pub closed spec fn cache_v(&self) -> Map<Seq<u8>, Seq<u8>> {
        self.cache@
    }

    pub fn new(tree: PathMap) -> (r: Self)
        ensures
            r.tree_v() == tree@,
            r.cache_v() == Map::<Seq<u8>, Seq<u8>>::empty(),
    {
        SiteBuilder { tree, cache: PathMap::new() }
    }

    /// Files under the components and layouts pools are not walked as
    /// standalone pages.
    pub fn directory_to_ignore(&self, path: &Vec<u8>) -> (r: bool)
        ensures
            r == ignored_dir(path@),
    {
        ignored_dir_exec(path)
    }

    /// Recursively expands every component reference of the file at
    /// `path`, per `resolve_spec`.
    pub fn replace_components(
        &mut self,
        path: &Vec<u8>,
        guard: &mut Guard,
        events: &mut Vec<Event>,
    ) -> (r: Vec<u8>)
        requires
            old(guard).wf(),
        ensures
            final(guard).wf(),
            final(guard)@ == old(guard)@,
            final(self).tree_v() == old(self).tree_v(),
            ({
                let st = resolve_spec(old(self).tree_v(), old(self).cache_v(), old(guard)@, path@);
                &&& r@ == st.result
                &&& final(self).cache_v() == st.cache
                &&& evs(final(events)@) == evs(old(events)@) + st.events
            }),
        decreases measure(self.tree_v(), guard@), 1int, 0int,
    {
        let hit = match self.cache.get(path) {
            Some(v) => Some(copy_vec(v)),
            None => None,
        };
        if let Some(v) = hit {
            proof {
                assert(evs(events@) =~= evs(events@) + Seq::<EventS>::empty());
            }
            return v;
        }
        let text_opt = match self.tree.get(path) {
            Some(c) => Some(copy_vec(c)),
            None => None,
        };
        let text = match text_opt {
            None => {
                events.push(Event::ReadFail(copy_vec(path)));
                proof {
                    assert(evs(events@) =~= evs(old(events)@) + seq![
                        EventS::ReadFail { path: path@ },
                    ]);
                }
                let r: Vec<u8> = Vec::new();
                proof {
                    assert(r@ =~= Seq::<u8>::empty());
                }
                return r;
            },
            Some(t) => t,
        };
        events.push(Event::Read(copy_vec(path)));
        let ghost e1 = events@;
        proof {
            assert(evs(e1) =~= evs(old(events)@) + seq![EventS::Read { path: path@ }]);
        }
        let ms = comp_tags_exec(&text);
        let acc = copy_vec(&text);
        let r = self.subst_refs_exec(&text, &ms, 0, acc, guard, events);
        let key = copy_vec(path);
        let val = copy_vec(&r);
        self.cache.insert(key, val);
        proof {
            let st0 = subst_refs(
                old(self).tree_v(),
                old(self).cache_v(),
                old(guard)@,
                text@,
                comp_tags(text@),
                0,
                text@,
            );
            assert(evs(events@) =~= evs(old(events)@) + (seq![EventS::Read { path: path@ }]
                + st0.events));
        }
        r
    }

    /// Folds the scanned matches `ms[idx..]` over `acc`, per
    /// `subst_refs`.
    fn subst_refs_exec(
        &mut self,
        text: &Vec<u8>,
        ms: &Vec<TagMatch>,
        idx: usize,
        acc: Vec<u8>,
        guard: &mut Guard,
        events: &mut Vec<Event>,
    ) -> (r: Vec<u8>)
        requires
            old(guard).wf(),
            forall|k: int| idx <= k < ms@.len() ==> ms@[k].start < ms@[k].end && ms@[k].end
                <= text@.len(),
        ensures
            final(guard).wf(),
            final(guard)@ == old(guard)@,
            final(self).tree_v() == old(self).tree_v(),
            ({
                let st = subst_refs(
                    old(self).tree_v(),
                    old(self).cache_v(),
                    old(guard)@,
                    text@,
                    tms_view(ms@),
                    idx as int,
                    acc@,
                );
                &&& r@ == st.result
                &&& final(self).cache_v() == st.cache
                &&& evs(final(events)@) == evs(old(events)@) + st.events
            }),
        decreases measure(self.tree_v(), guard@), 0int, ms@.len() - idx,
    {
        if idx >= ms.len() {
            proof {
                assert(evs(events@) =~= evs(events@) + Seq::<EventS>::empty());
            }
            return acc;
        }
        let m = &ms[idx];
        let cpath = comp_path_exec(&m.name);
        let span = copy_range(text, m.start, m.end);
        proof {
            assert(tms_view(ms@)[idx as int] == ms@[idx as int]@);
            assert(span@ == span_of(text@, tms_view(ms@)[idx as int]));
        }
        if guard.contains(&cpath) {
            events.push(Event::Cycle(copy_vec(&cpath)));
            let ghost emid = events@;
            proof {
                assert(evs(emid) =~= evs(old(events)@) + seq![EventS::Cycle { path: cpath@ }]);
            }
            let r = self.subst_refs_exec(text, ms, idx + 1, acc, guard, events);
            proof {
                let st1 = subst_refs(
                    old(self).tree_v(),
                    old(self).cache_v(),
                    old(guard)@,
                    text@,
                    tms_view(ms@),
                    idx + 1,
                    acc@,
                );
                assert(evs(events@) =~= evs(old(events)@) + (seq![EventS::Cycle { path: cpath@ }]
                    + st1.events));
            }
            return r;
        }
        let hit = match self.cache.get(&cpath) {
            Some(v) => Some(copy_vec(v)),
            None => None,
        };
        if let Some(cv) = hit {
            let acc2 = replace_all_exec(&acc, &span, &cv);
            let r = self.subst_refs_exec(text, ms, idx + 1, acc2, guard, events);
            return r;
        }
        let present = match self.tree.get(&cpath) {
            Some(_) => true,
            None => false,
        };
        if !present {
            events.push(Event::ReadFail(copy_vec(&cpath)));
            let ghost emid = events@;
            proof {
                assert(evs(emid) =~= evs(old(events)@) + seq![EventS::ReadFail { path: cpath@ }]);
            }
            let empty: Vec<u8> = Vec::new();
            proof {
                assert(empty@ =~= Seq::<u8>::empty());
            }
            let acc2 = replace_all_exec(&acc, &span, &empty);
            let r = self.subst_refs_exec(text, ms, idx + 1, acc2, guard, events);
            proof {
                let st1 = subst_refs(
                    old(self).tree_v(),
                    old(self).cache_v(),
                    old(guard)@,
                    text@,
                    tms_view(ms@),
                    idx + 1,
                    replace_all(acc@, span@, seq![]),
                );
                assert(evs(events@) =~= evs(old(events)@) + (seq![
                    EventS::ReadFail { path: cpath@ },
                ] + st1.events));
            }
            return r;
        }
        proof {
            self.tree.lemma_finite_dom();
            lemma_measure_decreases(self.tree_v(), guard@, cpath@);
        }
        let ghost g0 = guard@;
        guard.push(copy_vec(&cpath));
        let sub = self.replace_components(&cpath, guard, events);
        guard.remove(&cpath);
        proof {
            assert(g0.insert(cpath@).remove(cpath@) =~= g0);
        }
        let acc2 = replace_all_exec(&acc, &span, &sub);
        let r = self.subst_refs_exec(text, ms, idx + 1, acc2, guard, events);
        proof {
            let subst = resolve_spec(
                old(self).tree_v(),
                old(self).cache_v(),
                g0.insert(cpath@),
                cpath@,
            );
            let st1 = subst_refs(
                old(self).tree_v(),
                subst.cache,
                g0,
                text@,
                tms_view(ms@),
                idx + 1,
                replace_all(acc@, span@, subst.result),
            );
            assert(evs(events@) =~= evs(old(events)@) + (subst.events + st1.events));
        }
        r
    }

    /// One layout pass over component-resolved content, per
    /// `layout_spec`.
    pub fn replace_layout(&mut self, content: &Vec<u8>, events: &mut Vec<Event>) -> (r: Vec<u8>)
        ensures
            final(self).tree_v() == old(self).tree_v(),
            ({
                let st = layout_spec(old(self).tree_v(), old(self).cache_v(), content@);
                &&& r@ == st.result
                &&& final(self).cache_v() == st.cache
                &&& evs(final(events)@) == evs(old(events)@) + st.events
            }),
    {
        match first_layout_tag_exec(content) {
            None => {
                proof {
                    assert(evs(events@) =~= evs(events@) + Seq::<EventS>::empty());
                }
                copy_vec(content)
            },
            Some(m) => {
                let lpath = layout_path_exec(&m.name);
                let mut g = Guard::new();
                let sub = self.replace_components(&lpath, &mut g, events);
                replace_placeholder_exec(&sub, &m.inner)
            },
        }
    }

    /// The full pipeline for one HTML page, per `page_spec`.
    pub fn flatten_file(&mut self, path: &Vec<u8>, events: &mut Vec<Event>) -> (r: Vec<u8>)
        ensures
            final(self).tree_v() == old(self).tree_v(),
            ({
                let st = page_spec(old(self).tree_v(), old(self).cache_v(), path@);
                &&& r@ == st.result
                &&& final(self).cache_v() == st.cache
                &&& evs(final(events)@) == evs(old(events)@) + st.events
            }),
    {
        let mut g = Guard::new();
        let resolved = self.replace_components(path, &mut g, events);
        let r = self.replace_layout(&resolved, events);
        proof {
            let a = resolve_spec(old(self).tree_v(), old(self).cache_v(), Set::empty(), path@);
            let b = layout_spec(old(self).tree_v(), a.cache, a.result);
            assert(evs(events@) =~= evs(old(events)@) + (a.events + b.events));
        }
        r
    }

    /// Routes one discovered file: an HTML page runs the pipeline; any
    /// other file's bytes pass through unchanged (the copy path).
    pub fn process_file(&mut self, path: &Vec<u8>, events: &mut Vec<Event>) -> (r: Vec<u8>)
        ensures
            final(self).tree_v() == old(self).tree_v(),
            is_html_path(path@) ==> ({
                let st = page_spec(old(self).tree_v(), old(self).cache_v(), path@);
                &&& r@ == st.result
                &&& final(self).cache_v() == st.cache
                &&& evs(final(events)@) == evs(old(events)@) + st.events
            }),
            !is_html_path(path@) && old(self).tree_v().contains_key(path@) ==> r@ == old(
                self,
            ).tree_v()[path@] && final(self).cache_v() == old(self).cache_v() && evs(
                final(events)@,
            ) == evs(old(events)@),
            !is_html_path(path@) && !old(self).tree_v().contains_key(path@) ==> r@
                == Seq::<u8>::empty() && final(self).cache_v() == old(self).cache_v() && evs(
                final(events)@,
            ) == evs(old(events)@) + seq![EventS::ReadFail { path: path@ }],
    {
        if is_html_path_exec(path) {
            self.flatten_file(path, events)
        } else {
            let hit = match self.tree.get(path) {
                Some(v) => Some(copy_vec(v)),
                None => None,
            };
            match hit {
                Some(v) => v,
                None => {
                    events.push(Event::ReadFail(copy_vec(path)));
                    proof {
                        assert(evs(events@) =~= evs(old(events)@) + seq![
                            EventS::ReadFail { path: path@ },
                        ]);
                    }
                    Vec::new()
                },
            }
        }
    }
}

} // verus!
