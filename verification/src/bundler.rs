use vstd::prelude::*;

use crate::bytes::bytes_eq;
use crate::edit::{
    Edit, EditModel, all_edits_wf, apply_edits, apply_spec, edits_disjoint, push_range, sort_edits,
    views_of,
};
use crate::errors::{BundleError, ErrModel};
use crate::scan::{
    DocScan, Pending, PendingModel, all_pendings_wf, opt_bytes, pending_end, pending_start,
    pendings_of, scan_spec,
};
use crate::tree::SyntaxTree;

verus! {

/// Name for what base64's standard-alphabet engine returns for given bytes;
/// it depends on those bytes alone.
pub uninterp spec fn b64_of(s: Seq<u8>) -> Seq<u8>;

/// Relies on base64::Engine::encode with the standard engine (padded,
/// `+/` alphabet); the length bound keeps the engine's internal size
/// computation from overflowing.
#[verifier::external_body]
fn b64_encode(b: &Vec<u8>) -> (r: Vec<u8>)
    requires
        b@.len() < 0x1000000000000000,
    ensures
        r@ == b64_of(b@),
{
    base64::Engine::encode(&base64::prelude::BASE64_STANDARD, b.as_slice()).into_bytes()
}

/// `# source `, the heading that names an inlined file.
pub open spec fn include_header() -> Seq<u8> {
    seq![35u8, 32u8, 115u8, 111u8, 117u8, 114u8, 99u8, 101u8, 32u8]
}

/// `#########`, the separator closing an inlined file.
pub open spec fn include_sep() -> Seq<u8> {
    seq![35u8, 35u8, 35u8, 35u8, 35u8, 35u8, 35u8, 35u8, 35u8]
}

/// One blank line: two line breaks.
pub open spec fn blank() -> Seq<u8> {
    seq![10u8, 10u8]
}

/// What replaces an include directive: a heading with the path relative to
/// the root, the included file's bundled body, and a separator.
pub open spec fn include_wrap(rel: Seq<u8>, body: Seq<u8>) -> Seq<u8> {
    include_header() + rel + blank() + body + blank() + include_sep()
}

/// `$(echo '`, opening the frozen substitution.
pub open spec fn build_open() -> Seq<u8> {
    seq![36u8, 40u8, 101u8, 99u8, 104u8, 111u8, 32u8, 39u8]
}

/// `' | base64 -d)`, closing the frozen substitution.
pub open spec fn build_close() -> Seq<u8> {
    seq![39u8, 32u8, 124u8, 32u8, 98u8, 97u8, 115u8, 101u8, 54u8, 52u8, 32u8, 45u8, 100u8, 41u8]
}

/// What replaces an inline-build substitution: a substitution that decodes
/// the captured output at the bundled script's own run time.
pub open spec fn build_wrap(enc: Seq<u8>) -> Seq<u8> {
    build_open() + enc + build_close()
}

/// Render the replacement text for an inlined file.
pub fn render_include(rel: &Vec<u8>, body: &Vec<u8>) -> (r: Vec<u8>)
    ensures
        r@ == include_wrap(rel@, body@),
{
    let mut v: Vec<u8> = Vec::new();
    v.push(35u8);
    v.push(32u8);
    v.push(115u8);
    v.push(111u8);
    v.push(117u8);
    v.push(114u8);
    v.push(99u8);
    v.push(101u8);
    v.push(32u8);
    proof {
        assert(v@ =~= include_header());
    }
    push_range(&mut v, rel, 0, rel.len());
    proof {
        assert(rel@.subrange(0, rel@.len() as int) =~= rel@);
    }
    v.push(10u8);
    v.push(10u8);
    proof {
        assert(v@ =~= include_header() + rel@ + blank());
    }
    push_range(&mut v, body, 0, body.len());
    proof {
        assert(body@.subrange(0, body@.len() as int) =~= body@);
    }
    v.push(10u8);
    v.push(10u8);
    let mut k: usize = 0;
    while k < 9
        invariant
            0 <= k <= 9,
            v@ =~= include_header() + rel@ + blank() + body@ + blank() + include_sep().take(
                k as int,
            ),
        decreases 9 - k,
    {
        v.push(35u8);
        proof {
            assert(include_sep().take(k + 1) =~= include_sep().take(k as int).push(35u8));
        }
        k = k + 1;
    }
    proof {
        assert(include_sep().take(9) =~= include_sep());
        assert(v@ =~= include_wrap(rel@, body@));
    }
    v
}

/// Decide what an inline-build substitution becomes once its command has
/// run: a non-zero exit is fatal, naming the command and the status;
/// otherwise the captured output is frozen, base64-encoded, into a
/// substitution that only decodes it.
pub fn build_replacement(command: Vec<u8>, exit_ok: bool, exit_code: i32, stdout: &Vec<u8>) -> (r:
    Result<Vec<u8>, BundleError>)
    requires
        stdout@.len() < 0x1000000000000000,
    ensures
        (!exit_ok ==> (r matches Err(e) && e@ == ErrModel::SubcommandFailure(
            command@,
            exit_code as int,
        ))),
        (exit_ok ==> (r matches Ok(v) && v@ == build_wrap(b64_of(stdout@)))),
{
    if !exit_ok {
        return Err(BundleError::SubcommandFailure(command, exit_code));
    }
    let enc = b64_encode(stdout);
    let mut v: Vec<u8> = Vec::new();
    v.push(36u8);
    v.push(40u8);
    v.push(101u8);
    v.push(99u8);
    v.push(104u8);
    v.push(111u8);
    v.push(32u8);
    v.push(39u8);
    proof {
        assert(v@ =~= build_open());
    }
    push_range(&mut v, &enc, 0, enc.len());
    proof {
        assert(enc@.subrange(0, enc@.len() as int) =~= enc@);
    }
    v.push(39u8);
    v.push(32u8);
    v.push(124u8);
    v.push(32u8);
    v.push(98u8);
    v.push(97u8);
    v.push(115u8);
    v.push(101u8);
    v.push(54u8);
    v.push(52u8);
    v.push(32u8);
    v.push(45u8);
    v.push(100u8);
    v.push(41u8);
    proof {
        assert(v@ =~= build_wrap(b64_of(stdout@)));
    }
    Ok(v)
}

/// Is the byte string `x` one of the paths in `s`?
pub open spec fn in_paths(s: Seq<Vec<u8>>, x: Seq<u8>) -> bool {
    exists|i: int| 0 <= i < s.len() && (#[trigger] s[i])@ == x
}

/// The byte strings of a list of paths.
pub open spec fn path_views(s: Seq<Vec<u8>>) -> Seq<Seq<u8>> {
    s.map_values(|v: Vec<u8>| v@)
}

/// The path `canon` relative to `root`: `canon` must lie strictly below
/// `root`, and the separator after the root is dropped.
pub open spec fn rel_of(root: Seq<u8>, canon: Seq<u8>) -> Option<Seq<u8>> {
    if root.len() > 0 && root[root.len() - 1] == 47u8 {
        if canon.len() > root.len() && canon.subrange(0, root.len() as int) == root {
            Some(canon.skip(root.len() as int))
        } else {
            None
        }
    } else {
        if canon.len() > root.len() + 1 && canon.subrange(0, root.len() as int) == root && canon[
            root.len() as int
        ] == 47u8 {
            Some(canon.skip(root.len() as int + 1))
        } else {
            None
        }
    }
}

/// What the bundler decides for one resolved include target.
pub enum IncludeAction {
    /// The file's body was already inlined earlier: the directive collapses
    /// to an empty replacement.
    Skip,
    /// The file is to be read and bundled; the payload is its path relative
    /// to the root, for the heading of the inlined block.
    Recurse(Vec<u8>),
}

/// The bundler's decision on a canonical include target, as a value: skip
/// an already-inlined file, refuse a target outside the root, refuse a
/// cycle, otherwise recurse.
pub enum DecisionModel {
    Skip,
    Recurse(Seq<u8>),
    Fail(ErrModel),
}

/// One run's cross-file state: the canonicalized root directory, the single
/// run-wide interpreter selector, the stack of files being resolved and the
/// set of files already inlined. A fresh instance is required per run.
pub struct Bundler {
    pub root_dir: Vec<u8>,
    pub selector: Option<Vec<u8>>,
    pub visiting: Vec<Vec<u8>>,
    pub visited: Vec<Vec<u8>>,
}

/// The decision the bundler owes for a canonical include target.
pub open spec fn decision_spec(b: Bundler, canon: Seq<u8>) -> DecisionModel {
    if in_paths(b.visited@, canon) {
        DecisionModel::Skip
    } else {
        match rel_of(b.root_dir@, canon) {
            None => DecisionModel::Fail(ErrModel::IncludeOutsideRoot(canon)),
            Some(rel) => {
                if in_paths(b.visiting@, canon) {
                    DecisionModel::Fail(ErrModel::CircularInclude(canon))
                } else {
                    DecisionModel::Recurse(rel)
                }
            },
        }
    }
}

#[verifier::loop_isolation(false)]
fn paths_contain(list: &Vec<Vec<u8>>, x: &Vec<u8>) -> (r: bool)
    ensures
        r == in_paths(list@, x@),
{
    let mut k: usize = 0;
    while k < list.len()
        invariant
            0 <= k <= list@.len(),
            forall|m: int| 0 <= m < k ==> (#[trigger] list@[m])@ != x@,
        decreases list@.len() - k,
    {
        if bytes_eq(&list[k], x) {
            return true;
        }
        k = k + 1;
    }
    false
}

impl Bundler {
    /// A fresh run over the given canonicalized root directory: no selector
    /// seen, nothing being resolved, nothing inlined.
    pub fn new(root_dir: Vec<u8>) -> (b: Bundler)
        ensures
            b.root_dir@ == root_dir@,
            b.selector is None,
            b.visiting@.len() == 0,
            b.visited@.len() == 0,
    {
        Bundler { root_dir, selector: None, visiting: Vec::new(), visited: Vec::new() }
    }

    /// Decide what to do with one resolved include target, and when the
    /// decision is to recurse, push it onto the stack of files being
    /// resolved. An already-inlined file is skipped before anything else is
    /// looked at; a target outside the root and a target still being
    /// resolved (a cycle) are fatal.
    pub fn include_decision(&mut self, canon: Vec<u8>) -> (r: Result<IncludeAction, BundleError>)
        ensures
            final(self).root_dir == old(self).root_dir,
            final(self).selector == old(self).selector,
            final(self).visited == old(self).visited,
            (match decision_spec(*old(self), canon@) {
                DecisionModel::Skip => r matches Ok(a) && a is Skip && final(self).visiting == old(
                    self,
                ).visiting,
                DecisionModel::Recurse(rel) => r matches Ok(a) && (a matches
                    IncludeAction::Recurse(v) && v@ == rel) && path_views(final(self).visiting@)
                    == path_views(old(self).visiting@).push(canon@),
                DecisionModel::Fail(e) => r matches Err(er) && er@ == e && final(self).visiting
                    == old(self).visiting,
            }),
    {
        if paths_contain(&self.visited, &canon) {
            return Ok(IncludeAction::Skip);
        }
        let rel = match self.relative_to_root(canon) {
            Ok(pair) => pair,
            Err(e) => {
                return Err(e);
            },
        };
        let (rel, canon) = rel;
        if paths_contain(&self.visiting, &canon) {
            return Err(BundleError::CircularInclude(canon));
        }
        let ghost pre = self.visiting@;
        let ghost cv = canon@;
        self.visiting.push(canon);
        proof {
            assert forall|m: int| 0 <= m < self.visiting@.len() implies #[trigger] path_views(
                self.visiting@,
            )[m] == path_views(pre).push(cv)[m] by {
                if m < pre.len() {
                    assert(self.visiting@[m] == pre[m]);
                    assert(path_views(pre)[m] == pre[m]@);
                }
            }
            assert(path_views(self.visiting@) =~= path_views(pre).push(cv));
        }
        Ok(IncludeAction::Recurse(rel))
    }

    /// Express `canon` relative to the root directory; hands `canon` back
    /// beside the relative path, or inside the error.
    fn relative_to_root(&self, canon: Vec<u8>) -> (r: Result<(Vec<u8>, Vec<u8>), BundleError>)
        ensures
            (match rel_of(self.root_dir@, canon@) {
                Some(rel) => r matches Ok(p) && p.0@ == rel && p.1@ == canon@,
                None => r matches Err(e) && e@ == ErrModel::IncludeOutsideRoot(canon@),
            }),
    {
        let rl = self.root_dir.len();
        let cl = canon.len();
        let slash_end = rl > 0 && self.root_dir[rl - 1] == 47u8;
        if slash_end {
            if cl > rl && crate::bytes::match_range(&canon, 0, rl, &self.root_dir) {
                let rel = crate::bytes::extract(&canon, rl, cl);
                proof {
                    assert(canon@.skip(rl as int) =~= canon@.subrange(rl as int, cl as int));
                }
                Ok((rel, canon))
            } else {
                Err(BundleError::IncludeOutsideRoot(canon))
            }
        } else {
            if cl > rl && cl - rl >= 2 && crate::bytes::match_range(&canon, 0, rl, &self.root_dir)
                && canon[rl] == 47u8 {
                let rel = crate::bytes::extract(&canon, rl + 1, cl);
                proof {
                    assert(canon@.skip(rl + 1) =~= canon@.subrange(rl + 1, cl as int));
                }
                Ok((rel, canon))
            } else {
                Err(BundleError::IncludeOutsideRoot(canon))
            }
        }
    }

    /// A recursed-into file is fully inlined: pop it from the stack of files
    /// being resolved and record it as visited.
    pub fn leave_file(&mut self)
        requires
            old(self).visiting@.len() > 0,
        ensures
            final(self).root_dir == old(self).root_dir,
            final(self).selector == old(self).selector,
            final(self).visiting@ == old(self).visiting@.drop_last(),
            final(self).visited@ == old(self).visited@.push(old(self).visiting@.last()),
    {
        let p = self.visiting.pop();
        match p {
            Some(v) => {
                self.visited.push(v);
            },
            None => {},
        }
    }

    /// Scan one document against this run's state: the run-wide selector is
    /// threaded through the scan and updated on success; on an error the
    /// whole state, the selector included, is left as it was.
    pub fn scan_document(&mut self, source: &Vec<u8>, tree: &SyntaxTree) -> (r: Result<
        DocScan,
        BundleError,
    >)
        requires
            tree.wf(source@.len()),
        ensures
            final(self).root_dir == old(self).root_dir,
            final(self).visiting == old(self).visiting,
            final(self).visited == old(self).visited,
            (r matches Ok(ds) ==> scan_spec(
                *tree,
                source@,
                opt_bytes(old(self).selector),
                tree.node_count() as int,
            ) matches Ok(st) && opt_bytes(final(self).selector) == st.selector && views_of(
                ds.edits@,
            ) == st.edits && pendings_of(ds.pendings@) == st.pendings),
            (r is Err ==> final(self).selector == old(self).selector),
            (r matches Err(e) ==> scan_spec(
                *tree,
                source@,
                opt_bytes(old(self).selector),
                tree.node_count() as int,
            ) == Err::<crate::scan::ScanState, ErrModel>(e@)),
            (r matches Ok(ds) ==> all_edits_wf(views_of(ds.edits@), source@.len())
                && all_pendings_wf(pendings_of(ds.pendings@), source@.len())),
    {
        match crate::scan::scan_document(source, tree, &self.selector) {
            Ok(p) => {
                let (upd, ds) = p;
                match upd {
                    Some(v) => {
                        self.selector = Some(v);
                    },
                    None => {},
                }
                Ok(ds)
            },
            Err(e) => Err(e),
        }
    }

    /// Close the run: the bundled top-level body is put under the run-wide
    /// selector, separated by a blank line; a run in which no file declared
    /// a selector is refused.
    pub fn finish(self, body: &Vec<u8>) -> (r: Result<Vec<u8>, BundleError>)
        ensures
            (self.selector matches Some(sel) ==> (r matches Ok(out) && out@ == sel@ + blank()
                + body@)),
            (self.selector is None ==> (r matches Err(e) && e@ == ErrModel::SelectorMissing)),
    {
        match self.selector {
            None => Err(BundleError::SelectorMissing),
            Some(sel) => {
                let mut out = sel;
                out.push(10u8);
                out.push(10u8);
                let ghost mid = out@;
                push_range(&mut out, body, 0, body.len());
                proof {
                    assert(body@.subrange(0, body@.len() as int) =~= body@);
                    assert(out@ =~= self.selector.unwrap()@ + blank() + body@);
                }
                Ok(out)
            },
        }
    }
}

/// The views of the filled-in contents.
pub open spec fn fills_views(s: Seq<Vec<u8>>) -> Seq<Seq<u8>> {
    s.map_values(|v: Vec<u8>| v@)
}

/// The edits a document's pending replacements become once each has its
/// content: the pending's span, the content handed in for it.
pub open spec fn filled_edits(ps: Seq<PendingModel>, fs: Seq<Seq<u8>>) -> Seq<EditModel> {
    Seq::new(ps.len(), |k: int| EditModel { start: pending_start(ps[k]), end: pending_end(ps[k]), content: fs[k] })
}

/// Rewrite one scanned document: the scan's certain edits together with one
/// filled-in replacement per pending directive, applied as one atomic
/// rewrite.
#[verifier::loop_isolation(false)]
pub fn assemble(source: &Vec<u8>, scan: DocScan, fills: Vec<Vec<u8>>) -> (r: Result<
    Vec<u8>,
    BundleError,
>)
    requires
        fills@.len() == scan.pendings@.len(),
        all_edits_wf(views_of(scan.edits@), source@.len()),
        all_pendings_wf(pendings_of(scan.pendings@), source@.len()),
    ensures
        ({
            let combined = views_of(scan.edits@) + filled_edits(
                pendings_of(scan.pendings@),
                fills_views(fills@),
            );
            &&& (edits_disjoint(sort_edits(combined)) ==> (r matches Ok(out) && out@ == apply_spec(
                source@,
                sort_edits(combined),
                0,
            )))
            &&& (!edits_disjoint(sort_edits(combined)) ==> (r matches Err(e) && e@
                == ErrModel::EditsOverlap))
        }),
{
    let DocScan { edits, pendings } = scan;
    let ghost e0 = views_of(edits@);
    let ghost ps = pendings_of(pendings@);
    let ghost fs = fills_views(fills@);
    let ghost combined = e0 + filled_edits(ps, fs);
    let mut all = edits;
    let mut rest = pendings;
    let mut rfills = fills;
    let ghost j: int = 0;
    while rest.len() > 0
        invariant
            0 <= j <= ps.len(),
            ps.len() == fs.len(),
            pendings_of(rest@) == ps.skip(j),
            fills_views(rfills@) == fs.skip(j),
            views_of(all@) == e0 + filled_edits(ps, fs).take(j),
            all_edits_wf(views_of(all@), source@.len()),
        decreases rest@.len(),
    {
        proof {
            assert(pendings_of(rest@)[0] == rest@[0]@);
            assert(fills_views(rfills@)[0] == rfills@[0]@);
        }
        let ghost prev_rest = rest@;
        let ghost prev_fills = rfills@;
        let p = rest.remove(0);
        let f = rfills.remove(0);
        proof {
            assert(p@ == ps[j]);
            assert(f@ == fs[j]);
            assert forall|m: int| 0 <= m < rest@.len() implies #[trigger] pendings_of(rest@)[m]
                == ps.skip(j + 1)[m] by {
                assert(rest@[m] == prev_rest[m + 1]);
                assert(pendings_of(prev_rest)[m + 1] == prev_rest[m + 1]@);
                assert(pendings_of(prev_rest)[m + 1] == ps.skip(j)[m + 1]);
            }
            assert(pendings_of(rest@) =~= ps.skip(j + 1));
            assert forall|m: int| 0 <= m < rfills@.len() implies #[trigger] fills_views(rfills@)[m]
                == fs.skip(j + 1)[m] by {
                assert(rfills@[m] == prev_fills[m + 1]);
                assert(fills_views(prev_fills)[m + 1] == prev_fills[m + 1]@);
                assert(fills_views(prev_fills)[m + 1] == fs.skip(j)[m + 1]);
            }
            assert(fills_views(rfills@) =~= fs.skip(j + 1));
        }
        let (pstart, pend) = match &p {
            Pending::Include { start, end, .. } => (*start, *end),
            Pending::Build { start, end, .. } => (*start, *end),
        };
        let ghost pre_all = all@;
        all.push(Edit { start_byte: pstart, end_byte: pend, new_content: f });
        proof {
            assert forall|m: int| 0 <= m < all@.len() implies #[trigger] views_of(all@)[m] == (e0
                + filled_edits(ps, fs).take(j + 1))[m] by {
                if m < pre_all.len() {
                    assert(all@[m] == pre_all[m]);
                    assert(views_of(pre_all)[m] == pre_all[m]@);
                } else {
                    assert(all@[m] == all@.last());
                    assert(views_of(all@)[m] == all@.last()@);
                    assert(filled_edits(ps, fs)[j] == EditModel {
                        start: pending_start(ps[j]),
                        end: pending_end(ps[j]),
                        content: fs[j],
                    });
                }
            }
            assert(views_of(all@) =~= e0 + filled_edits(ps, fs).take(j + 1));
            j = j + 1;
        }
    }
    proof {
        assert(filled_edits(ps, fs).take(j) =~= filled_edits(ps, fs));
        assert(views_of(all@) == combined);
    }
    apply_edits(source, all)
}

} // verus!
