use vstd::prelude::*;

use crate::bytes::{
    extract, is_shebang, is_shebang_exec, kw_build_marker, kw_build_marker_vec, kw_dot, kw_source,
    kw_source_vec, match_range, on_first_line, on_first_line_exec,
};
use crate::edit::{Edit, EditModel, all_edits_wf, views_of};
use crate::errors::{BundleError, ErrModel};
use crate::tree::{NodeKind, SyntaxTree};

verus! {

/// A replacement whose content is not known at scan time: an include
/// directive waiting for the included file's bundled body, or an inline-build
/// substitution waiting for its command's captured output.
pub enum Pending {
    Include { start: usize, end: usize, path: Vec<u8> },
    Build { start: usize, end: usize, command: Vec<u8> },
}

/// Mathematical model of a pending replacement.
pub enum PendingModel {
    Include { start: int, end: int, path: Seq<u8> },
    Build { start: int, end: int, command: Seq<u8> },
}

impl View for Pending {
    type V = PendingModel;

    open spec fn view(&self) -> PendingModel {
        match self {
            Pending::Include { start, end, path } => PendingModel::Include {
                start: *start as int,
                end: *end as int,
                path: path@,
            },
            Pending::Build { start, end, command } => PendingModel::Build {
                start: *start as int,
                end: *end as int,
                command: command@,
            },
        }
    }
}

pub open spec fn pendings_of(s: Seq<Pending>) -> Seq<PendingModel> {
    s.map_values(|p: Pending| p@)
}

pub open spec fn pending_start(p: PendingModel) -> int {
    match p {
        PendingModel::Include { start, .. } => start,
        PendingModel::Build { start, .. } => start,
    }
}

pub open spec fn pending_end(p: PendingModel) -> int {
    match p {
        PendingModel::Include { end, .. } => end,
        PendingModel::Build { end, .. } => end,
    }
}

pub open spec fn pending_wf(p: PendingModel, len: nat) -> bool {
    0 <= pending_start(p) <= pending_end(p) <= len
}

pub open spec fn all_pendings_wf(s: Seq<PendingModel>, len: nat) -> bool {
    forall|i: int| 0 <= i < s.len() ==> pending_wf(#[trigger] s[i], len)
}

pub open spec fn opt_bytes(o: Option<Vec<u8>>) -> Option<Seq<u8>> {
    match o {
        Some(v) => Some(v@),
        None => None,
    }
}

/// The run-wide selector after a scan, given the scan's update: a newly
/// fixed text, or the one the run already had.
pub open spec fn updated_selector(upd: Option<Vec<u8>>, sel0: Option<Seq<u8>>) -> Option<Seq<u8>> {
    match upd {
        Some(v) => Some(v@),
        None => sel0,
    }
}

/// The run state a document scan threads along: whether this file already
/// declared a selector, the run-wide selector, and what has been planned.
pub struct ScanState {
    pub found: bool,
    pub selector: Option<Seq<u8>>,
    pub edits: Seq<EditModel>,
    pub pendings: Seq<PendingModel>,
}

/// What the scan of one document hands back: the planned certain edits and
/// the replacements that still need outside content.
pub struct DocScan {
    pub edits: Vec<Edit>,
    pub pendings: Vec<Pending>,
}

/// Where the removal of a selector comment ends: at the next sibling's
/// start, so the trailing line break goes with it, or at the comment's own
/// end when nothing follows.
pub open spec fn sel_edit_end(t: SyntaxTree, i: int) -> int {
    match t.next_sibling_spec(i) {
        Some(s) => t.nodes@[s as int].start as int,
        None => t.nodes@[i].end as int,
    }
}

/// The sibling an inline-build substitution is matched against: its own next
/// named sibling, or, when it is the last token of its statement, the
/// parent's next named sibling.
pub open spec fn build_sibling(t: SyntaxTree, i: int) -> Option<usize> {
    match t.next_named_sibling_spec(i) {
        Some(s) => Some(s),
        None => match t.nodes@[i].parent {
            Some(p) => t.next_named_sibling_spec(p as int),
            None => None,
        },
    }
}

/// One step of the recognizer on node `i`: dispatch on the node kind, check
/// the selector rules, recognize include directives and inline-build pairs.
pub open spec fn step_spec(t: SyntaxTree, src: Seq<u8>, i: int, st: ScanState) -> Result<
    ScanState,
    ErrModel,
> {
    let n = t.nodes@[i];
    if n.kind == NodeKind::Comment && is_shebang(src, n.start as int, n.end as int) {
        if st.found {
            Err(ErrModel::SelectorDuplicate)
        } else if !on_first_line(src, n.start as int) {
            Err(ErrModel::SelectorMisplaced)
        } else {
            let txt = t.text_of(src, i);
            let conflict = match st.selector {
                Some(sel) => sel != txt,
                None => false,
            };
            if conflict {
                Err(ErrModel::SelectorConflict(st.selector.unwrap(), txt))
            } else {
                Ok(ScanState {
                    found: true,
                    selector: Some(txt),
                    edits: st.edits.push(
                        EditModel {
                            start: n.start as int,
                            end: sel_edit_end(t, i),
                            content: Seq::empty(),
                        },
                    ),
                    pendings: st.pendings,
                })
            }
        }
    } else if n.kind == NodeKind::Command {
        step_command(t, src, i, st)
    } else if n.kind == NodeKind::Substitution {
        step_substitution(t, src, i, st)
    } else {
        Ok(st)
    }
}

/// The include-directive case: a command named `source` or `.` whose single
/// argument is a bare word or a quoted literal.
pub open spec fn step_command(t: SyntaxTree, src: Seq<u8>, i: int, st: ScanState) -> Result<
    ScanState,
    ErrModel,
> {
    let n = t.nodes@[i];
    if n.children@.len() == 0 {
        Ok(st)
    } else {
        let name = t.text_of(src, n.children@[0] as int);
        if name == kw_source() || name == kw_dot() {
            if n.children@.len() < 2 {
                Err(ErrModel::UnresolvableIncludeArgument(Seq::empty()))
            } else {
                let a = n.children@[1] as int;
                let an = t.nodes@[a];
                if an.kind == NodeKind::Word {
                    Ok(ScanState {
                        found: st.found,
                        selector: st.selector,
                        edits: st.edits,
                        pendings: st.pendings.push(
                            PendingModel::Include {
                                start: n.start as int,
                                end: n.end as int,
                                path: t.text_of(src, a),
                            },
                        ),
                    })
                } else if an.kind == NodeKind::Quoted && an.end - an.start >= 2 {
                    Ok(ScanState {
                        found: st.found,
                        selector: st.selector,
                        edits: st.edits,
                        pendings: st.pendings.push(
                            PendingModel::Include {
                                start: n.start as int,
                                end: n.end as int,
                                path: src.subrange(an.start + 1, an.end - 1),
                            },
                        ),
                    })
                } else {
                    Err(ErrModel::UnresolvableIncludeArgument(t.text_of(src, a)))
                }
            }
        } else {
            Ok(st)
        }
    }
}

/// The inline-build case: a command substitution whose matched sibling is
/// exactly the build-marker comment. The marker comment is consumed; the
/// substitution's replacement waits for the command's output.
pub open spec fn step_substitution(t: SyntaxTree, src: Seq<u8>, i: int, st: ScanState) -> Result<
    ScanState,
    ErrModel,
> {
    let n = t.nodes@[i];
    match build_sibling(t, i) {
        None => Ok(st),
        Some(sib) => {
            let sn = t.nodes@[sib as int];
            if sn.kind == NodeKind::Comment && t.text_of(src, sib as int) == kw_build_marker()
                && n.end - n.start >= 3 {
                Ok(ScanState {
                    found: st.found,
                    selector: st.selector,
                    edits: st.edits.push(
                        EditModel {
                            start: sn.start as int,
                            end: sn.end as int,
                            content: Seq::empty(),
                        },
                    ),
                    pendings: st.pendings.push(
                        PendingModel::Build {
                            start: n.start as int,
                            end: n.end as int,
                            command: src.subrange(n.start + 2, n.end - 1),
                        },
                    ),
                })
            } else {
                Ok(st)
            }
        },
    }
}

/// The recognizer over the first `k` nodes in pre-order, starting from the
/// run-wide selector `sel0`, stopping at the first error.
pub open spec fn scan_spec(t: SyntaxTree, src: Seq<u8>, sel0: Option<Seq<u8>>, k: int) -> Result<
    ScanState,
    ErrModel,
>
    decreases k,
{
    if k <= 0 {
        Ok(
            ScanState {
                found: false,
                selector: sel0,
                edits: Seq::empty(),
                pendings: Seq::empty(),
            },
        )
    } else {
        match scan_spec(t, src, sel0, k - 1) {
            Err(e) => Err(e),
            Ok(st) => step_spec(t, src, k - 1, st),
        }
    }
}

/// An error anywhere in the scan is the scan's final outcome.
proof fn lemma_scan_err(t: SyntaxTree, src: Seq<u8>, sel0: Option<Seq<u8>>, k1: int, k2: int)
    requires
        0 <= k1 <= k2,
        scan_spec(t, src, sel0, k1) is Err,
    ensures
        scan_spec(t, src, sel0, k2) == scan_spec(t, src, sel0, k1),
    decreases k2 - k1,
{
    if k2 > k1 {
        lemma_scan_err(t, src, sel0, k1, k2 - 1);
    }
}

proof fn lemma_views_push(s: Seq<Edit>, e: Edit)
    ensures
        views_of(s.push(e)) =~= views_of(s).push(e@),
{
    assert forall|m: int| 0 <= m < s.len() + 1 implies #[trigger] views_of(s.push(e))[m]
        == views_of(s).push(e@)[m] by {
        if m < s.len() {
            assert(s.push(e)[m] == s[m]);
        }
    }
}

proof fn lemma_pendings_push(s: Seq<Pending>, p: Pending)
    ensures
        pendings_of(s.push(p)) =~= pendings_of(s).push(p@),
{
    assert forall|m: int| 0 <= m < s.len() + 1 implies #[trigger] pendings_of(s.push(p))[m]
        == pendings_of(s).push(p@)[m] by {
        if m < s.len() {
            assert(s.push(p)[m] == s[m]);
        }
    }
}

/// Scan one document: classify every node in pre-order, validate the
/// selector rules against the run-wide selector `run_selector`, and plan the
/// document's edits. On success the updated run-wide selector comes back
/// with the scan; on the first error the scan aborts.
#[verifier::loop_isolation(false)]
#[verifier::rlimit(100)]
pub fn scan_document(source: &Vec<u8>, tree: &SyntaxTree, run_selector: &Option<Vec<u8>>) -> (r:
    Result<(Option<Vec<u8>>, DocScan), BundleError>)
    requires
        tree.wf(source@.len()),
    ensures
        (r matches Ok(p) ==> scan_spec(
            *tree,
            source@,
            opt_bytes(*run_selector),
            tree.node_count() as int,
        ) matches Ok(st) && updated_selector(p.0, opt_bytes(*run_selector)) == st.selector && views_of(p.1.edits@) == st.edits
            && pendings_of(p.1.pendings@) == st.pendings),
        (r matches Err(e) ==> scan_spec(
            *tree,
            source@,
            opt_bytes(*run_selector),
            tree.node_count() as int,
        ) == Err::<ScanState, ErrModel>(e@)),
        (r matches Ok(p) ==> all_edits_wf(views_of(p.1.edits@), source@.len())
            && all_pendings_wf(pendings_of(p.1.pendings@), source@.len())),
{
    let ghost t = *tree;
    let ghost src = source@;
    let ghost len = source@.len();
    let ghost sel0 = opt_bytes(*run_selector);

    let n = tree.nodes.len();
    let mut found = false;
    let mut upd: Option<Vec<u8>> = None;
    let mut edits: Vec<Edit> = Vec::new();
    let mut pendings: Vec<Pending> = Vec::new();
    let mut i: usize = 0;
    proof {
        assert(views_of(edits@) =~= Seq::<EditModel>::empty());
        assert(pendings_of(pendings@) =~= Seq::<PendingModel>::empty());
    }
    while i < n
        invariant
            0 <= i <= n,
            scan_spec(t, src, sel0, i as int) == Ok::<ScanState, ErrModel>(
                ScanState {
                    found,
                    selector: updated_selector(upd, sel0),
                    edits: views_of(edits@),
                    pendings: pendings_of(pendings@),
                },
            ),
            all_edits_wf(views_of(edits@), len),
            all_pendings_wf(pendings_of(pendings@), len),
            upd is Some ==> found,
        decreases n - i,
    {
        let ghost st_pre = ScanState {
            found,
            selector: updated_selector(upd, sel0),
            edits: views_of(edits@),
            pendings: pendings_of(pendings@),
        };
        proof {
            assert(t.node_wf(i as int, len));
        }
        let kind = tree.nodes[i].kind;
        let nstart = tree.nodes[i].start;
        let nend = tree.nodes[i].end;
        if kind == NodeKind::Comment && is_shebang_exec(source, nstart, nend) {
            if found {
                proof {
                    lemma_scan_err(t, src, sel0, i + 1, n as int);
                }
                return Err(BundleError::SelectorDuplicate);
            }
            if !on_first_line_exec(source, nstart) {
                proof {
                    lemma_scan_err(t, src, sel0, i + 1, n as int);
                }
                return Err(BundleError::SelectorMisplaced);
            }
            let txt = extract(source, nstart, nend);
            match run_selector {
                Some(sel) => {
                    if !crate::bytes::bytes_eq(sel, &txt) {
                        proof {
                            lemma_scan_err(t, src, sel0, i + 1, n as int);
                        }
                        return Err(BundleError::SelectorConflict(
                            crate::bytes::copy_bytes(sel),
                            txt,
                        ));
                    }
                },
                None => {
                    upd = Some(txt);
                },
            }
            found = true;
            let sel_end: usize = match tree.next_sibling(i, Ghost(len)) {
                Some(s) => {
                    proof {
                        assert(t.node_wf(s as int, len));
                    }
                    tree.nodes[s].start
                },
                None => nend,
            };
            let ghost pre_edits = edits@;
            edits.push(Edit { start_byte: nstart, end_byte: sel_end, new_content: Vec::new() });
            proof {
                lemma_views_push(pre_edits, edits@.last());
                assert(views_of(edits@) =~= views_of(pre_edits).push(
                    EditModel { start: nstart as int, end: sel_end as int, content: Seq::empty() },
                ));
                assert(step_spec(t, src, i as int, st_pre) == Ok::<ScanState, ErrModel>(
                    ScanState {
                        found,
                        selector: updated_selector(upd, sel0),
                        edits: views_of(edits@),
                        pendings: pendings_of(pendings@),
                    },
                ));
            }
        } else if kind == NodeKind::Command {
            let ccount = tree.nodes[i].children.len();
            if ccount > 0 {
                let c0 = tree.nodes[i].children[0];
                proof {
                    assert(t.node_wf(c0 as int, len));
                }
                let c0s = tree.nodes[c0].start;
                let c0e = tree.nodes[c0].end;
                let ksrc = kw_source_vec();
                let mut is_inc = match_range(source, c0s, c0e, &ksrc);
                if !is_inc {
                    is_inc = c0e - c0s == 1 && source[c0s] == 46u8;
                    proof {
                        if is_inc {
                            assert(src.subrange(c0s as int, c0e as int) =~= kw_dot());
                        } else {
                            if src.subrange(c0s as int, c0e as int) == kw_dot() {
                                assert(src.subrange(c0s as int, c0e as int).len() == kw_dot().len());
                                assert(kw_dot().len() == 1);
                                assert(c0e - c0s == 1);
                                assert(src.subrange(c0s as int, c0e as int)[0] == src[c0s + 0]);
                                assert(kw_dot()[0] == 46u8);
                                assert(false);
                            }
                        }
                    }
                }
                if is_inc {
                    if ccount < 2 {
                        proof {
                            lemma_scan_err(t, src, sel0, i + 1, n as int);
                        }
                        return Err(BundleError::UnresolvableIncludeArgument(Vec::new()));
                    }
                    let c1 = tree.nodes[i].children[1];
                    proof {
                        assert(t.node_wf(c1 as int, len));
                    }
                    let k1 = tree.nodes[c1].kind;
                    let c1s = tree.nodes[c1].start;
                    let c1e = tree.nodes[c1].end;
                    let path: Vec<u8> = if k1 == NodeKind::Word {
                        extract(source, c1s, c1e)
                    } else if k1 == NodeKind::Quoted && c1e - c1s >= 2 {
                        extract(source, c1s + 1, c1e - 1)
                    } else {
                        proof {
                            lemma_scan_err(t, src, sel0, i + 1, n as int);
                        }
                        return Err(BundleError::UnresolvableIncludeArgument(
                            extract(source, c1s, c1e),
                        ));
                    };
                    let ghost pre_pendings = pendings@;
                    pendings.push(Pending::Include { start: nstart, end: nend, path });
                    proof {
                        lemma_pendings_push(pre_pendings, pendings@.last());
                        assert(step_spec(t, src, i as int, st_pre) == Ok::<ScanState, ErrModel>(
                            ScanState {
                                found,
                                selector: updated_selector(upd, sel0),
                                edits: views_of(edits@),
                                pendings: pendings_of(pendings@),
                            },
                        ));
                    }
                } else {
                    proof {
                        assert(step_spec(t, src, i as int, st_pre) == Ok::<ScanState, ErrModel>(
                            st_pre,
                        ));
                    }
                }
            } else {
                proof {
                    assert(step_spec(t, src, i as int, st_pre) == Ok::<ScanState, ErrModel>(
                        st_pre,
                    ));
                }
            }
        } else if kind == NodeKind::Substitution {
            let first = tree.next_named_sibling(i, Ghost(len));
            let sib2: Option<usize> = match first {
                Some(s) => Some(s),
                None => {
                    match tree.nodes[i].parent {
                        Some(p) => tree.next_named_sibling(p, Ghost(len)),
                        None => None,
                    }
                },
            };
            proof {
                assert(sib2 == build_sibling(t, i as int));
            }
            let mut matched = false;
            if let Some(sib) = sib2 {
                proof {
                    assert(t.node_wf(sib as int, len));
                }
                let sk = tree.nodes[sib].kind;
                let ss = tree.nodes[sib].start;
                let se = tree.nodes[sib].end;
                let marker = kw_build_marker_vec();
                if sk == NodeKind::Comment && match_range(source, ss, se, &marker) && nend - nstart
                    >= 3 {
                    matched = true;
                    let ghost pre_edits = edits@;
                    edits.push(Edit { start_byte: ss, end_byte: se, new_content: Vec::new() });
                    proof {
                        lemma_views_push(pre_edits, edits@.last());
                    }
                    let command = extract(source, nstart + 2, nend - 1);
                    let ghost pre_pendings = pendings@;
                    pendings.push(Pending::Build { start: nstart, end: nend, command });
                    proof {
                        lemma_pendings_push(pre_pendings, pendings@.last());
                        assert(step_spec(t, src, i as int, st_pre) == Ok::<ScanState, ErrModel>(
                            ScanState {
                                found,
                                selector: updated_selector(upd, sel0),
                                edits: views_of(edits@),
                                pendings: pendings_of(pendings@),
                            },
                        ));
                    }
                }
            }
            proof {
                if !matched {
                    assert(step_spec(t, src, i as int, st_pre) == Ok::<ScanState, ErrModel>(
                        st_pre,
                    ));
                }
            }
        } else {
            proof {
                assert(step_spec(t, src, i as int, st_pre) == Ok::<ScanState, ErrModel>(st_pre));
            }
        }
        i = i + 1;
    }
    Ok((upd, DocScan { edits, pendings }))
}

} // verus!
