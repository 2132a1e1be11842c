//! Laws of the resolution engine, proved against `resolve_spec`: how
//! cycles degrade, how the cache memoizes, and what the layout pass
//! yields.

use vstd::prelude::*;
use crate::store::EventS;
use crate::resolve::{
    layout_spec, lemma_measure_decreases, measure, resolve_spec, subst_refs, RState,
};
use crate::tags::{
    comp_path_of, comp_prefix, comp_tags, first_layout_tag, layout_path_of, replace_placeholder,
    span_of, TagM,
};
use crate::text::{lemma_replace_whole, replace_all};

verus! {

/// Every key of `a` is bound in `b` to the same value.
pub open spec fn submap(a: Map<Seq<u8>, Seq<u8>>, b: Map<Seq<u8>, Seq<u8>>) -> bool {
    forall|k: Seq<u8>| #[trigger] a.contains_key(k) ==> b.contains_key(k) && b[k] == a[k]
}

/// `p` lies under the components pool.
pub open spec fn has_comp_prefix(p: Seq<u8>) -> bool {
    p.len() >= comp_prefix().len() && p.subrange(0, comp_prefix().len() as int) == comp_prefix()
}

proof fn lemma_comp_path_prefix(name: Seq<u8>)
    ensures
        has_comp_prefix(comp_path_of(name)),
{
    assert(comp_path_of(name).subrange(0, comp_prefix().len() as int) =~= comp_prefix());
}

/// The paths read from the source tree, in the order of the events.
pub open spec fn reads(es: Seq<EventS>) -> Seq<Seq<u8>>
    decreases es.len(),
{
    if es.len() == 0 {
        seq![]
    } else {
        match es[0] {
            EventS::Read { path } => seq![path] + reads(es.skip(1)),
            _ => reads(es.skip(1)),
        }
    }
}

proof fn lemma_reads_concat(a: Seq<EventS>, b: Seq<EventS>)
    ensures
        reads(a + b) == reads(a) + reads(b),
    decreases a.len(),
{
    if a.len() == 0 {
        assert(a + b =~= b);
        assert(reads(a) + reads(b) =~= reads(b));
    } else {
        assert((a + b).skip(1) =~= a.skip(1) + b);
        lemma_reads_concat(a.skip(1), b);
        assert((a + b)[0] == a[0]);
        match a[0] {
            EventS::Read { path } => {
                assert(seq![path] + (reads(a.skip(1)) + reads(b)) =~= (seq![path] + reads(
                    a.skip(1),
                )) + reads(b));
            },
            _ => {},
        }
    }
}

proof fn lemma_reads_single(e: EventS)
    ensures
        reads(seq![e]) == (match e {
            EventS::Read { path } => seq![path],
            _ => Seq::<Seq<u8>>::empty()
        }),
{
    assert(seq![e].skip(1) =~= Seq::<EventS>::empty());
    match e {
        EventS::Read { path } => {
            assert(seq![path] + reads(seq![e].skip(1)) =~= seq![path]);
        },
        _ => {},
    }
}

proof fn lemma_no_dup_concat(a: Seq<Seq<u8>>, b: Seq<Seq<u8>>)
    requires
        a.no_duplicates(),
        b.no_duplicates(),
        forall|q: Seq<u8>| a.contains(q) ==> !b.contains(q),
    ensures
        (a + b).no_duplicates(),
{
    assert forall|i: int, j: int|
        0 <= i < (a + b).len() && 0 <= j < (a + b).len() && i != j implies (a + b)[i] != (a
        + b)[j] by {
        if i < a.len() && j < a.len() {
        } else if i >= a.len() && j >= a.len() {
        } else if i < a.len() {
            assert(a.contains(a[i]));
            assert(b.contains(b[j - a.len()]));
        } else {
            assert(a.contains(a[j]));
            assert(b.contains(b[i - a.len()]));
        }
    }
}

/// Memoization: a path already resolved is answered from the cache —
/// the same content at every further reference site, with no new read
/// and no cache change.
pub proof fn lemma_cached_resolve(
    tree: Map<Seq<u8>, Seq<u8>>,
    cache: Map<Seq<u8>, Seq<u8>>,
    guard: Set<Seq<u8>>,
    p: Seq<u8>,
)
    requires
        cache.contains_key(p),
    ensures
        resolve_spec(tree, cache, guard, p) == (RState {
            result: cache[p],
            cache: cache,
            events: seq![],
        }),
{
}

/// Each source file is read at most once per build: within one
/// resolution no path is read twice, a read only happens for a path
/// not yet cached, every read path is cached by the end, and existing
/// cache entries survive unchanged. Together with `lemma_cached_resolve`
/// this gives diamond inclusion its guarantee: the second reference to
/// a component yields the identical content without another read.
pub proof fn lemma_reads_once(
    tree: Map<Seq<u8>, Seq<u8>>,
    cache: Map<Seq<u8>, Seq<u8>>,
    guard: Set<Seq<u8>>,
    path: Seq<u8>,
)
    requires
        guard.contains(path) || !has_comp_prefix(path),
    ensures
        ({
            let st = resolve_spec(tree, cache, guard, path);
            &&& submap(cache, st.cache)
            &&& reads(st.events).no_duplicates()
            &&& forall|q: Seq<u8>|
                #[trigger] reads(st.events).contains(q) ==> !cache.contains_key(q)
                    && st.cache.contains_key(q) && (q == path || (!guard.contains(q)
                    && has_comp_prefix(q)))
        }),
    decreases measure(tree, guard), 1int, 0int,
{
    let st = resolve_spec(tree, cache, guard, path);
    if cache.contains_key(path) {
        assert(reads(st.events) =~= Seq::<Seq<u8>>::empty());
    } else if !tree.contains_key(path) {
        lemma_reads_single(EventS::ReadFail { path: path });
        assert(reads(st.events) =~= Seq::<Seq<u8>>::empty());
    } else {
        let text = tree[path];
        let sub = subst_refs(tree, cache, guard, text, comp_tags(text), 0, text);
        lemma_reads_once_subst(tree, cache, guard, text, comp_tags(text), 0, text);
        lemma_reads_concat(seq![EventS::Read { path: path }], sub.events);
        lemma_reads_single(EventS::Read { path: path });
        assert(st.events == seq![EventS::Read { path: path }] + sub.events);
        assert(reads(st.events) == seq![path] + reads(sub.events));
        assert forall|q: Seq<u8>| reads(sub.events).contains(q) implies q != path by {
            if q == path {
                assert(!guard.contains(q) && has_comp_prefix(q));
            }
        }
        assert(seq![path].no_duplicates());
        assert forall|q: Seq<u8>| seq![path].contains(q) implies !reads(sub.events).contains(
            q,
        ) by {
            assert(q == path);
        }
        lemma_no_dup_concat(seq![path], reads(sub.events));
        assert forall|q: Seq<u8>| #[trigger] reads(st.events).contains(q) implies !cache.contains_key(
            q,
        ) && st.cache.contains_key(q) && (q == path || (!guard.contains(q) && has_comp_prefix(
            q,
        ))) by {
            let i = choose|i: int| 0 <= i < reads(st.events).len() && reads(st.events)[i] == q;
            if i == 0 {
                assert(q == path);
            } else {
                assert(reads(sub.events)[i - 1] == q);
                assert(reads(sub.events).contains(q));
            }
        }
    }
}

proof fn lemma_reads_once_subst(
    tree: Map<Seq<u8>, Seq<u8>>,
    cache: Map<Seq<u8>, Seq<u8>>,
    guard: Set<Seq<u8>>,
    text: Seq<u8>,
    ms: Seq<TagM>,
    i: int,
    acc: Seq<u8>,
)
    ensures
        ({
            let st = subst_refs(tree, cache, guard, text, ms, i, acc);
            &&& submap(cache, st.cache)
            &&& reads(st.events).no_duplicates()
            &&& forall|q: Seq<u8>|
                #[trigger] reads(st.events).contains(q) ==> !cache.contains_key(q)
                    && st.cache.contains_key(q) && !guard.contains(q) && has_comp_prefix(q)
        }),
    decreases measure(tree, guard), 0int, ms.len() - i,
{
    let st = subst_refs(tree, cache, guard, text, ms, i, acc);
    if i < 0 || i >= ms.len() {
        assert(reads(st.events) =~= Seq::<Seq<u8>>::empty());
    } else {
        let cpath = comp_path_of(ms[i].name);
        let span = span_of(text, ms[i]);
        lemma_comp_path_prefix(ms[i].name);
        if guard.contains(cpath) {
            let tail = subst_refs(tree, cache, guard, text, ms, i + 1, acc);
            lemma_reads_once_subst(tree, cache, guard, text, ms, i + 1, acc);
            lemma_reads_concat(seq![EventS::Cycle { path: cpath }], tail.events);
            lemma_reads_single(EventS::Cycle { path: cpath });
            assert(reads(st.events) =~= reads(tail.events));
            assert forall|q: Seq<u8>| #[trigger] reads(st.events).contains(q) implies !cache.contains_key(q)
                && st.cache.contains_key(q) && !guard.contains(q) && has_comp_prefix(q) by {
                assert(reads(tail.events).contains(q));
            }
        } else if cache.contains_key(cpath) {
            let tail = subst_refs(tree, cache, guard, text, ms, i + 1, replace_all(acc, span, cache[cpath]));
            lemma_reads_once_subst(
                tree,
                cache,
                guard,
                text,
                ms,
                i + 1,
                replace_all(acc, span, cache[cpath]),
            );
            assert(st == tail);
        } else if !tree.contains_key(cpath) {
            let acc2 = replace_all(acc, span, seq![]);
            let tail = subst_refs(tree, cache, guard, text, ms, i + 1, acc2);
            lemma_reads_once_subst(tree, cache, guard, text, ms, i + 1, acc2);
            lemma_reads_concat(seq![EventS::ReadFail { path: cpath }], tail.events);
            lemma_reads_single(EventS::ReadFail { path: cpath });
            assert(reads(st.events) =~= reads(tail.events));
            assert forall|q: Seq<u8>| #[trigger] reads(st.events).contains(q) implies !cache.contains_key(q)
                && st.cache.contains_key(q) && !guard.contains(q) && has_comp_prefix(q) by {
                assert(reads(tail.events).contains(q));
            }
        } else if !tree.dom().finite() {
            let tail = subst_refs(tree, cache, guard, text, ms, i + 1, acc);
            lemma_reads_once_subst(tree, cache, guard, text, ms, i + 1, acc);
            assert(st == tail);
        } else {
            lemma_measure_decreases(tree, guard, cpath);
            let sub = resolve_spec(tree, cache, guard.insert(cpath), cpath);
            lemma_reads_once(tree, cache, guard.insert(cpath), cpath);
            let acc2 = replace_all(acc, span, sub.result);
            let tail = subst_refs(tree, sub.cache, guard, text, ms, i + 1, acc2);
            lemma_reads_once_subst(tree, sub.cache, guard, text, ms, i + 1, acc2);
            lemma_reads_concat(sub.events, tail.events);
            assert(reads(st.events) == reads(sub.events) + reads(tail.events));
            assert forall|q: Seq<u8>| reads(sub.events).contains(q) implies !reads(
                tail.events,
            ).contains(q) by {
                assert(sub.cache.contains_key(q));
            }
            lemma_no_dup_concat(reads(sub.events), reads(tail.events));
            assert forall|q: Seq<u8>| #[trigger] reads(st.events).contains(q) implies !cache.contains_key(q)
                && st.cache.contains_key(q) && !guard.contains(q) && has_comp_prefix(q) by {
                let k = choose|k: int|
                    0 <= k < reads(st.events).len() && reads(st.events)[k] == q;
                if k < reads(sub.events).len() {
                    assert(reads(sub.events).contains(q));
                    assert(q == cpath || (!guard.insert(cpath).contains(q) && has_comp_prefix(q)));
                    assert(sub.cache.contains_key(q));
                } else {
                    assert(reads(tail.events)[k - reads(sub.events).len()] == q);
                    assert(reads(tail.events).contains(q));
                    assert(!sub.cache.contains_key(q));
                }
            }
        }
    }
}

/// A direct self-reference terminates: a component already on the
/// active chain whose only reference names itself resolves to its own
/// raw text — the reference tag stays literal — after one read and one
/// cycle diagnostic; the literal text is what gets cached.
pub proof fn lemma_direct_self_reference(
    tree: Map<Seq<u8>, Seq<u8>>,
    cache: Map<Seq<u8>, Seq<u8>>,
    guard: Set<Seq<u8>>,
    c: Seq<u8>,
)
    requires
        guard.contains(c),
        !cache.contains_key(c),
        tree.contains_key(c),
        comp_tags(tree[c]).len() == 1,
        comp_path_of(comp_tags(tree[c])[0].name) == c,
    ensures
        ({
            let st = resolve_spec(tree, cache, guard, c);
            &&& st.result == tree[c]
            &&& st.cache == cache.insert(c, tree[c])
            &&& st.events == seq![EventS::Read { path: c }, EventS::Cycle { path: c }]
        }),
{
    let text = tree[c];
    let ms = comp_tags(text);
    let st1 = subst_refs(tree, cache, guard, text, ms, 1, text);
    assert(st1.result == text && st1.cache == cache && st1.events == Seq::<EventS>::empty());
    let st0 = subst_refs(tree, cache, guard, text, ms, 0, text);
    assert(st0.result == text && st0.cache == cache);
    assert(st0.events =~= seq![EventS::Cycle { path: c }]);
    let st = resolve_spec(tree, cache, guard, c);
    assert(st.events =~= seq![EventS::Read { path: c }, EventS::Cycle { path: c }]);
}

/// An indirect cycle degrades the same way on both legs: with `a` on
/// the active chain referencing only `b`, and `b` referencing only
/// `a`, resolving `a` terminates after reading each file once; `b`
/// keeps its reference to `a` literal (that is what gets cached for
/// `b`), one cycle diagnostic names `a`, and `a`'s result is its raw
/// text with the `b` reference span replaced by `b`'s literal text.
pub proof fn lemma_indirect_cycle(
    tree: Map<Seq<u8>, Seq<u8>>,
    cache: Map<Seq<u8>, Seq<u8>>,
    guard: Set<Seq<u8>>,
    a: Seq<u8>,
    b: Seq<u8>,
)
    requires
        a != b,
        guard.contains(a),
        !guard.contains(b),
        !cache.contains_key(a),
        !cache.contains_key(b),
        tree.contains_key(a),
        tree.contains_key(b),
        tree.dom().finite(),
        comp_tags(tree[a]).len() == 1,
        comp_path_of(comp_tags(tree[a])[0].name) == b,
        comp_tags(tree[b]).len() == 1,
        comp_path_of(comp_tags(tree[b])[0].name) == a,
    ensures
        ({
            let st = resolve_spec(tree, cache, guard, a);
            let span_b = span_of(tree[a], comp_tags(tree[a])[0]);
            &&& st.result == replace_all(tree[a], span_b, tree[b])
            &&& st.cache == cache.insert(b, tree[b]).insert(a, st.result)
            &&& st.cache[b] == tree[b]
            &&& st.events == seq![
                EventS::Read { path: a },
                EventS::Read { path: b },
                EventS::Cycle { path: a },
            ]
        }),
{
    let gb = guard.insert(b);
    lemma_direct_cycle_leg(tree, cache, gb, b, a);
    let rb = resolve_spec(tree, cache, gb, b);
    assert(rb.result == tree[b] && rb.cache == cache.insert(b, tree[b]));

    let ta = tree[a];
    let msa = comp_tags(ta);
    let span_b = span_of(ta, msa[0]);
    let acc2 = replace_all(ta, span_b, tree[b]);
    let st1 = subst_refs(tree, rb.cache, guard, ta, msa, 1, acc2);
    assert(st1.result == acc2 && st1.cache == rb.cache && st1.events == Seq::<EventS>::empty());
    let st0 = subst_refs(tree, cache, guard, ta, msa, 0, ta);
    assert(st0.result == acc2 && st0.cache == rb.cache);
    assert(st0.events =~= seq![EventS::Read { path: b }, EventS::Cycle { path: a }]);
    let st = resolve_spec(tree, cache, guard, a);
    assert(st.events =~= seq![
        EventS::Read { path: a },
        EventS::Read { path: b },
        EventS::Cycle { path: a },
    ]);
    assert(st.cache[b] == tree[b]);
}

/// The inner leg shared by the cycle laws: a component whose only
/// reference names a path already on the chain resolves to its raw
/// text and caches it, after one read and one cycle diagnostic.
proof fn lemma_direct_cycle_leg(
    tree: Map<Seq<u8>, Seq<u8>>,
    cache: Map<Seq<u8>, Seq<u8>>,
    guard: Set<Seq<u8>>,
    c: Seq<u8>,
    target: Seq<u8>,
)
    requires
        guard.contains(target),
        !cache.contains_key(c),
        tree.contains_key(c),
        comp_tags(tree[c]).len() == 1,
        comp_path_of(comp_tags(tree[c])[0].name) == target,
    ensures
        ({
            let st = resolve_spec(tree, cache, guard, c);
            &&& st.result == tree[c]
            &&& st.cache == cache.insert(c, tree[c])
            &&& st.events == seq![EventS::Read { path: c }, EventS::Cycle { path: target }]
        }),
{
    let text = tree[c];
    let ms = comp_tags(text);
    let st1 = subst_refs(tree, cache, guard, text, ms, 1, text);
    assert(st1.result == text && st1.cache == cache && st1.events == Seq::<EventS>::empty());
    let st0 = subst_refs(tree, cache, guard, text, ms, 0, text);
    assert(st0.events =~= seq![EventS::Cycle { path: target }]);
    let st = resolve_spec(tree, cache, guard, c);
    assert(st.events =~= seq![EventS::Read { path: c }, EventS::Cycle { path: target }]);
}

/// On an acyclic reference graph every reference is replaced by the
/// referenced file's resolved content and none survives in the
/// output, shown here for the base shape of such a graph: a file that
/// consists of exactly one component reference to a reference-free
/// component resolves to that component's text, in which no reference
/// remains. (Termination on every input, cyclic or not, is carried by
/// the decrease measures of `resolve_spec` itself.)
pub proof fn lemma_single_reference_resolves_fully(
    tree: Map<Seq<u8>, Seq<u8>>,
    cache: Map<Seq<u8>, Seq<u8>>,
    guard: Set<Seq<u8>>,
    p: Seq<u8>,
)
    requires
        !cache.contains_key(p),
        tree.contains_key(p),
        tree.dom().finite(),
        comp_tags(tree[p]).len() == 1,
        span_of(tree[p], comp_tags(tree[p])[0]) == tree[p],
        tree[p].len() > 0,
        ({
            let c = comp_path_of(comp_tags(tree[p])[0].name);
            &&& !guard.contains(c)
            &&& !cache.contains_key(c)
            &&& tree.contains_key(c)
            &&& comp_tags(tree[c]).len() == 0
        }),
    ensures
        ({
            let c = comp_path_of(comp_tags(tree[p])[0].name);
            let st = resolve_spec(tree, cache, guard, p);
            &&& st.result == tree[c]
            &&& comp_tags(st.result).len() == 0
        }),
{
    let c = comp_path_of(comp_tags(tree[p])[0].name);
    let tc = tree[c];
    let stc = subst_refs(tree, cache, guard.insert(c), tc, comp_tags(tc), 0, tc);
    assert(stc.result == tc && stc.cache == cache);
    let sub = resolve_spec(tree, cache, guard.insert(c), c);
    assert(sub.result == tc);

    let tp = tree[p];
    let ms = comp_tags(tp);
    lemma_replace_whole(tp, tc);
    assert(replace_all(tp, span_of(tp, ms[0]), sub.result) == tc);
    let st1 = subst_refs(tree, sub.cache, guard, tp, ms, 1, tc);
    assert(st1.result == tc);
    let st0 = subst_refs(tree, cache, guard, tp, ms, 0, tp);
    assert(st0.result == tc);
}

/// The layout pass in both shapes: content without a layout reference
/// passes through unchanged; with one, the output is the referenced
/// layout's resolved text with its first placeholder replaced by the
/// page's captured body.
pub proof fn lemma_layout_application(
    tree: Map<Seq<u8>, Seq<u8>>,
    cache: Map<Seq<u8>, Seq<u8>>,
    content: Seq<u8>,
)
    ensures
        first_layout_tag(content) is None ==> layout_spec(tree, cache, content).result == content,
        first_layout_tag(content) matches Some(m) ==> layout_spec(tree, cache, content).result
            == replace_placeholder(
            resolve_spec(tree, cache, Set::empty(), layout_path_of(m.name)).result,
            m.inner,
        ),
{
}

} // verus!
