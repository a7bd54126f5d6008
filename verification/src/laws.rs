use vstd::prelude::*;

use crate::bundler::{Bundler, DecisionModel, decision_spec, in_paths, path_views, rel_of};
use crate::bytes::{is_shebang, on_first_line};
use crate::edit::{EditModel, apply_spec, edits_disjoint, edits_sorted, insert_sorted, sort_edits};
use crate::errors::ErrModel;
use crate::scan::{ScanState, scan_spec, sel_edit_end, step_spec};
use crate::tree::{NodeKind, SyntaxTree};

verus! {

/// Node `i` leaves every scan state untouched: it is neither a selector
/// comment, nor a recognized include directive, nor a matched inline-build
/// pair.
pub open spec fn inert_node(t: SyntaxTree, src: Seq<u8>, i: int) -> bool {
    forall|st: ScanState| #[trigger] step_spec(t, src, i, st) == Ok::<ScanState, ErrModel>(st)
}

/// A scan over a range of inert nodes changes nothing.
proof fn lemma_scan_inert_range(
    t: SyntaxTree,
    src: Seq<u8>,
    sel0: Option<Seq<u8>>,
    k1: int,
    k2: int,
)
    requires
        0 <= k1 <= k2,
        forall|i: int| k1 <= i < k2 ==> inert_node(t, src, i),
        scan_spec(t, src, sel0, k1) is Ok,
    ensures
        scan_spec(t, src, sel0, k2) == scan_spec(t, src, sel0, k1),
    decreases k2 - k1,
{
    if k2 > k1 {
        lemma_scan_inert_range(t, src, sel0, k1, k2 - 1);
        assert(inert_node(t, src, k2 - 1));
        match scan_spec(t, src, sel0, k2 - 1) {
            Ok(st) => {
                assert(step_spec(t, src, k2 - 1, st) == Ok::<ScanState, ErrModel>(st));
                assert(scan_spec(t, src, sel0, k2) == step_spec(t, src, k2 - 1, st));
            },
            Err(_) => {
                assert(false);
            },
        }
    }
}

/// Law: for a document with exactly one recognized construct — a valid
/// first-line interpreter-selector comment — and no include or build
/// directives, the scan finds that selector and plans exactly one edit, and
/// applying it yields the document with the selector's span and its
/// following gap removed: the bundle is then `selector + blank + remainder`,
/// byte for byte.
pub proof fn lemma_bundle_selector_only(t: SyntaxTree, src: Seq<u8>, si: usize)
    requires
        t.wf(src.len()),
        si < t.node_count(),
        t.nodes@[si as int].kind == NodeKind::Comment,
        is_shebang(src, t.nodes@[si as int].start as int, t.nodes@[si as int].end as int),
        on_first_line(src, t.nodes@[si as int].start as int),
        forall|i: int| 0 <= i < t.node_count() && i != si ==> inert_node(t, src, i),
    ensures
        ({
            let e = EditModel {
                start: t.nodes@[si as int].start as int,
                end: sel_edit_end(t, si as int),
                content: Seq::empty(),
            };
            &&& scan_spec(t, src, None, t.node_count() as int) == Ok::<ScanState, ErrModel>(
                ScanState {
                    found: true,
                    selector: Some(t.text_of(src, si as int)),
                    edits: seq![e],
                    pendings: Seq::empty(),
                },
            )
            &&& 0 <= e.start <= e.end <= src.len()
            &&& sort_edits(seq![e]) == seq![e]
            &&& edits_disjoint(seq![e])
            &&& apply_spec(src, seq![e], 0) == src.subrange(0, e.start) + src.subrange(
                e.end,
                src.len() as int,
            )
        }),
{
    let n = t.node_count() as int;
    let init = ScanState { found: false, selector: None, edits: Seq::empty(), pendings: Seq::empty() };
    lemma_scan_inert_range(t, src, None, 0, si as int);
    assert(scan_spec(t, src, None, si as int) == Ok::<ScanState, ErrModel>(init));
    let e = EditModel {
        start: t.nodes@[si as int].start as int,
        end: sel_edit_end(t, si as int),
        content: Seq::empty(),
    };
    let st1 = ScanState {
        found: true,
        selector: Some(t.text_of(src, si as int)),
        edits: Seq::empty().push(e),
        pendings: Seq::empty(),
    };
    assert(step_spec(t, src, si as int, init) == Ok::<ScanState, ErrModel>(st1));
    assert(scan_spec(t, src, None, si + 1) == Ok::<ScanState, ErrModel>(st1));
    lemma_scan_inert_range(t, src, None, si + 1, n);
    assert(Seq::empty().push(e) =~= seq![e]);

    assert(t.node_wf(si as int, src.len()));
    match t.next_sibling_spec(si as int) {
        Some(s) => {
            match t.nodes@[si as int].parent {
                Some(p) => {
                    assert(t.node_wf(p as int, src.len()));
                    let ch = t.nodes@[p as int].children@;
                    assert(ch.contains(si));
                    let pos = ch.index_of(si);
                    assert(0 <= pos < ch.len() && ch[pos] == si);
                    assert(pos + 1 < ch.len());
                    assert(s == ch[pos + 1]);
                    assert(t.nodes@[ch[pos] as int].end <= t.nodes@[ch[pos + 1] as int].start);
                    assert(t.node_wf(s as int, src.len()));
                    assert(e.end == t.nodes@[s as int].start);
                    assert(e.start <= t.nodes@[si as int].end <= e.end);
                },
                None => {
                    assert(false);
                },
            }
        },
        None => {},
    }
    assert(0 <= e.start <= e.end <= src.len());

    assert(seq![e].drop_last() =~= Seq::<EditModel>::empty());
    assert(seq![e].last() == e);
    assert(sort_edits(Seq::<EditModel>::empty()) == Seq::<EditModel>::empty());
    assert(sort_edits(seq![e]) == insert_sorted(e, Seq::<EditModel>::empty()));
    assert(insert_sorted(e, Seq::<EditModel>::empty()) =~= seq![e]);

    assert(seq![e].drop_first() =~= Seq::<EditModel>::empty());
    assert(apply_spec(src, Seq::<EditModel>::empty(), e.end) == src.subrange(
        e.end,
        src.len() as int,
    ));
    assert(apply_spec(src, seq![e], 0) =~= src.subrange(0, e.start) + src.subrange(
        e.end,
        src.len() as int,
    ));
}

/// Law: once a file's canonical path is recorded as inlined — as
/// `leave_file` records the path it pops — it is found there.
pub proof fn lemma_inlined_file_recorded(visited: Seq<Vec<u8>>, v: Vec<u8>)
    ensures
        in_paths(visited.push(v), v@),
{
    assert((visited.push(v))[visited.len() as int] == v);
}

/// Law: a file the bundler decided to recurse into is, once left, recorded
/// as inlined: `include_decision` pushed its canonical path, `leave_file`
/// pops that path into the visited set, and any later decision on the same
/// path finds it there. With `lemma_second_include_skips` this gives the
/// once-only rule: every directive for the path after the first resolves to
/// the empty replacement.
pub proof fn lemma_recurse_then_leave_records(b0: Bundler, b1: Bundler, b2: Bundler, p: Seq<u8>)
    requires
        // after the Recurse decision: the path went onto the stack
        path_views(b1.visiting@) == path_views(b0.visiting@).push(p),
        // after leaving the file: the stack's top moved to the visited set
        b1.visiting@.len() > 0,
        b2.visited@ == b1.visited@.push(b1.visiting@.last()),
    ensures
        in_paths(b2.visited@, p),
        decision_spec(b2, p) == DecisionModel::Skip,
{
    let n = b1.visiting@.len() as int;
    assert(path_views(b1.visiting@).len() == n);
    assert(path_views(b0.visiting@).len() == b0.visiting@.len());
    assert(path_views(b0.visiting@).push(p).len() == b0.visiting@.len() + 1);
    assert(path_views(b1.visiting@)[n - 1] == b1.visiting@[n - 1]@);
    assert(path_views(b0.visiting@).push(p)[n - 1] == p);
    assert(b1.visiting@.last()@ == p);
    assert(b2.visited@[b2.visited@.len() - 1] == b1.visiting@.last());
}

/// Law: re-sourcing an already-inlined file collapses to Skip — the empty
/// replacement — whatever else the run's state holds.
pub proof fn lemma_second_include_skips(b: Bundler, canon: Seq<u8>)
    requires
        in_paths(b.visited@, canon),
    ensures
        decision_spec(b, canon) == DecisionModel::Skip,
{
}

/// Law: a file that is still being resolved — a direct or transitive cycle —
/// is refused with CircularInclude before anything of it is read.
pub proof fn lemma_cycle_refused(b: Bundler, canon: Seq<u8>)
    requires
        !in_paths(b.visited@, canon),
        in_paths(b.visiting@, canon),
        rel_of(b.root_dir@, canon) is Some,
    ensures
        decision_spec(b, canon) == DecisionModel::Fail(ErrModel::CircularInclude(canon)),
{
}

/// Law: a file declaring a selector while the run already fixed one is
/// refused with both texts when they differ, and accepted, leaving the
/// run-wide selector unchanged, when they are byte-identical.
pub proof fn lemma_selector_conflict(t: SyntaxTree, src: Seq<u8>, i: int, st: ScanState)
    requires
        0 <= i < t.node_count(),
        t.nodes@[i].kind == NodeKind::Comment,
        is_shebang(src, t.nodes@[i].start as int, t.nodes@[i].end as int),
        on_first_line(src, t.nodes@[i].start as int),
        !st.found,
        st.selector is Some,
    ensures
        st.selector.unwrap() != t.text_of(src, i) ==> step_spec(t, src, i, st) == Err::<
            ScanState,
            ErrModel,
        >(ErrModel::SelectorConflict(st.selector.unwrap(), t.text_of(src, i))),
        st.selector.unwrap() == t.text_of(src, i) ==> (step_spec(t, src, i, st) matches Ok(st2)
            && st2.selector == st.selector && st2.found),
{
}


/// No two planned edits share a start offset.
pub open spec fn distinct_starts(s: Seq<EditModel>) -> bool {
    forall|i: int, j: int|
        0 <= i < j < s.len() ==> (#[trigger] s[i]).start != (#[trigger] s[j]).start
}

/// A stable insertion adds exactly its element to the collection.
proof fn lemma_insert_sorted_multiset(e: EditModel, s: Seq<EditModel>)
    ensures
        insert_sorted(e, s).to_multiset() == s.to_multiset().insert(e),
    decreases s.len(),
{
    broadcast use vstd::seq_lib::to_multiset_build;
    broadcast use vstd::multiset::group_multiset_axioms;

    if s.len() == 0 {
        assert(seq![e] =~= s.push(e));
        assert(s.push(e).to_multiset() =~= s.to_multiset().insert(e));
    } else if s.last().start <= e.start {
    } else {
        lemma_insert_sorted_multiset(e, s.drop_last());
        let m = s.drop_last().to_multiset();
        assert(insert_sorted(e, s).to_multiset() =~= m.insert(e).insert(s.last()));
        assert(s =~= s.drop_last().push(s.last()));
        assert(s.to_multiset() =~= m.insert(s.last()));
        assert(m.insert(e).insert(s.last()) =~= m.insert(s.last()).insert(e));
    }
}

/// Sorting keeps exactly the planned edits.
proof fn lemma_sort_multiset(s: Seq<EditModel>)
    ensures
        sort_edits(s).to_multiset() == s.to_multiset(),
    decreases s.len(),
{
    broadcast use vstd::seq_lib::to_multiset_build;
    broadcast use vstd::multiset::group_multiset_axioms;

    if s.len() == 0 {
        assert(sort_edits(s) =~= s);
    } else {
        lemma_sort_multiset(s.drop_last());
        lemma_insert_sorted_multiset(s.last(), sort_edits(s.drop_last()));
        assert(s =~= s.drop_last().push(s.last()));
        assert(s.to_multiset() =~= s.drop_last().to_multiset().insert(s.last()));
    }
}

/// A stable insertion into a sorted sequence stays sorted.
proof fn lemma_insert_sorted_keeps_sorted(e: EditModel, s: Seq<EditModel>)
    requires
        edits_sorted(s),
    ensures
        edits_sorted(insert_sorted(e, s)),
        insert_sorted(e, s).len() == s.len() + 1,
    decreases s.len(),
{
    broadcast use vstd::seq_lib::to_multiset_contains;
    broadcast use vstd::multiset::group_multiset_axioms;

    if s.len() == 0 {
    } else if s.last().start <= e.start {
        let r = s.push(e);
        assert forall|i: int, j: int| 0 <= i < j < r.len() implies (#[trigger] r[i]).start <= (
        #[trigger] r[j]).start by {
            if j < s.len() {
                assert(r[i] == s[i] && r[j] == s[j]);
            } else {
                assert(r[j] == e);
                if i < s.len() - 1 {
                    assert(s[i].start <= s[s.len() - 1].start);
                }
            }
        }
    } else {
        assert(edits_sorted(s.drop_last())) by {
            assert forall|i: int, j: int| 0 <= i < j < s.drop_last().len() implies (
            #[trigger] s.drop_last()[i]).start <= (#[trigger] s.drop_last()[j]).start by {
                assert(s.drop_last()[i] == s[i] && s.drop_last()[j] == s[j]);
            }
        }
        lemma_insert_sorted_keeps_sorted(e, s.drop_last());
        lemma_insert_sorted_multiset(e, s.drop_last());
        let r0 = insert_sorted(e, s.drop_last());
        assert forall|i: int| 0 <= i < r0.len() implies (#[trigger] r0[i]).start
            <= s.last().start by {
            assert(r0.contains(r0[i]));
            assert(r0.to_multiset().count(r0[i]) > 0);
            if r0[i] != e {
                assert(s.drop_last().to_multiset().count(r0[i]) > 0);
                assert(s.drop_last().contains(r0[i]));
                let k = choose|k: int| 0 <= k < s.drop_last().len() && s.drop_last()[k] == r0[i];
                assert(s[k] == r0[i]);
                assert(s[k].start <= s[s.len() - 1].start);
            }
        }
        let r = r0.push(s.last());
        assert forall|i: int, j: int| 0 <= i < j < r.len() implies (#[trigger] r[i]).start <= (
        #[trigger] r[j]).start by {
            if j < r0.len() {
                assert(r[i] == r0[i] && r[j] == r0[j]);
            } else {
                assert(r[i] == r0[i] && r[j] == s.last());
            }
        }
    }
}

/// The planned edits come out of the sort ordered by start offset.
proof fn lemma_sort_edits_sorted(s: Seq<EditModel>)
    ensures
        edits_sorted(sort_edits(s)),
    decreases s.len(),
{
    if s.len() > 0 {
        lemma_sort_edits_sorted(s.drop_last());
        lemma_insert_sorted_keeps_sorted(s.last(), sort_edits(s.drop_last()));
    }
}

/// Distinct start offsets are a property of the edits themselves: any
/// rearrangement keeps them.
proof fn lemma_distinct_transfer(s: Seq<EditModel>, t: Seq<EditModel>)
    requires
        t.to_multiset() == s.to_multiset(),
        distinct_starts(s),
    ensures
        distinct_starts(t),
{
    broadcast use vstd::seq_lib::to_multiset_contains;
    broadcast use vstd::seq_lib::to_multiset_remove;
    broadcast use vstd::multiset::group_multiset_axioms;

    assert forall|i: int, j: int| 0 <= i < j < t.len() implies (#[trigger] t[i]).start != (
    #[trigger] t[j]).start by {
        if t[i].start == t[j].start {
            if t[i] != t[j] {
                assert(t.contains(t[i]) && t.contains(t[j]));
                assert(s.to_multiset().count(t[i]) > 0 && s.to_multiset().count(t[j]) > 0);
                assert(s.contains(t[i]) && s.contains(t[j]));
                let a = choose|a: int| 0 <= a < s.len() && s[a] == t[i];
                let b = choose|b: int| 0 <= b < s.len() && s[b] == t[j];
                assert(a != b);
                assert(s[a].start != s[b].start);
                assert(false);
            } else {
                let v = t[i];
                assert(t.remove(j).to_multiset() == t.to_multiset().remove(v));
                assert(t.remove(j)[i] == v) by {
                    t.remove_ensures(j);
                }
                assert(t.remove(j).contains(v));
                assert(t.to_multiset().remove(v).count(v) > 0);
                assert(s.to_multiset().count(v) >= 2);
                assert(s.contains(v));
                let a = choose|a: int| 0 <= a < s.len() && s[a] == v;
                assert(s.remove(a).to_multiset() == s.to_multiset().remove(v));
                assert(s.remove(a).to_multiset().count(v) > 0);
                assert(s.remove(a).contains(v));
                let b0 = choose|b0: int| 0 <= b0 < s.remove(a).len() && s.remove(a)[b0] == v;
                s.remove_ensures(a);
                let b = if b0 < a {
                    b0
                } else {
                    b0 + 1
                };
                assert(s[b] == v && b != a);
                assert(s[a].start != s[b].start);
                assert(false);
            }
        }
    }
}

/// Two sorted sequences of the same edits, none sharing a start offset, are
/// the same sequence.
proof fn lemma_sorted_unique(a: Seq<EditModel>, b: Seq<EditModel>)
    requires
        edits_sorted(a),
        edits_sorted(b),
        distinct_starts(a),
        a.to_multiset() == b.to_multiset(),
    ensures
        a == b,
    decreases a.len(),
{
    broadcast use vstd::seq_lib::to_multiset_len;
    broadcast use vstd::seq_lib::to_multiset_contains;
    broadcast use vstd::seq_lib::to_multiset_remove;
    broadcast use vstd::multiset::group_multiset_axioms;

    assert(a.to_multiset().len() == a.len());
    assert(b.to_multiset().len() == b.len());
    if a.len() == 0 {
        assert(b.len() == 0);
        assert(a =~= b);
    } else {
        assert(b.len() == a.len());
        assert(a.contains(a[0]));
        assert(a.to_multiset().count(a[0]) > 0);
        assert(b.to_multiset().count(a[0]) > 0);
        assert(b.contains(a[0]));
        let j = choose|j: int| 0 <= j < b.len() && b[j] == a[0];
        assert(b.contains(b[0]));
        assert(b.to_multiset().count(b[0]) > 0);
        assert(a.to_multiset().count(b[0]) > 0);
        assert(a.contains(b[0]));
        let k = choose|k: int| 0 <= k < a.len() && a[k] == b[0];
        assert(a[0].start <= a[k].start);
        assert(b[0].start <= b[j].start);
        assert(a[0].start == b[0].start);
        if k != 0 {
            assert(a[0].start != a[k].start);
            assert(false);
        }
        assert(a[0] == b[0]);
        let a1 = a.drop_first();
        let b1 = b.drop_first();
        assert(a1 =~= a.remove(0));
        assert(b1 =~= b.remove(0));
        assert(a1.to_multiset() == b1.to_multiset());
        assert(edits_sorted(a1)) by {
            assert forall|x: int, y: int| 0 <= x < y < a1.len() implies (#[trigger] a1[x]).start
                <= (#[trigger] a1[y]).start by {
                assert(a1[x] == a[x + 1] && a1[y] == a[y + 1]);
            }
        }
        assert(edits_sorted(b1)) by {
            assert forall|x: int, y: int| 0 <= x < y < b1.len() implies (#[trigger] b1[x]).start
                <= (#[trigger] b1[y]).start by {
                assert(b1[x] == b[x + 1] && b1[y] == b[y + 1]);
            }
        }
        assert(distinct_starts(a1)) by {
            assert forall|x: int, y: int| 0 <= x < y < a1.len() implies (#[trigger] a1[x]).start
                != (#[trigger] a1[y]).start by {
                assert(a1[x] == a[x + 1] && a1[y] == a[y + 1]);
            }
        }
        lemma_sorted_unique(a1, b1);
        assert(a =~= b) by {
            assert forall|x: int| 0 <= x < a.len() implies a[x] == b[x] by {
                if x > 0 {
                    assert(a[x] == a1[x - 1] && b[x] == b1[x - 1]);
                }
            }
        }
    }
}

/// Law: applying pairwise non-overlapping edits whose start offsets are all
/// distinct yields the same final text in whatever order they were planned:
/// any rearrangement sorts to the same sequence, so the atomic rewrite is
/// the same.
pub proof fn lemma_apply_order_independent(text: Seq<u8>, s1: Seq<EditModel>, s2: Seq<EditModel>)
    requires
        s1.to_multiset() == s2.to_multiset(),
        distinct_starts(s1),
    ensures
        sort_edits(s1) == sort_edits(s2),
        apply_spec(text, sort_edits(s1), 0) == apply_spec(text, sort_edits(s2), 0),
{
    lemma_sort_multiset(s1);
    lemma_sort_multiset(s2);
    lemma_sort_edits_sorted(s1);
    lemma_sort_edits_sorted(s2);
    lemma_distinct_transfer(s1, sort_edits(s1));
    lemma_sorted_unique(sort_edits(s1), sort_edits(s2));
}

} // verus!