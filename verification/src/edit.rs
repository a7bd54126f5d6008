use vstd::prelude::*;

use crate::errors::{BundleError, ErrModel};

verus! {

/// One planned replacement: the half-open byte range `start_byte..end_byte`
/// of the original document is replaced by `new_content`.
pub struct Edit {
    pub start_byte: usize,
    pub end_byte: usize,
    pub new_content: Vec<u8>,
}

/// Mathematical model of an edit.
pub struct EditModel {
    pub start: int,
    pub end: int,
    pub content: Seq<u8>,
}

impl View for Edit {
    type V = EditModel;

    open spec fn view(&self) -> EditModel {
        EditModel {
            start: self.start_byte as int,
            end: self.end_byte as int,
            content: self.new_content@,
        }
    }
}

/// The models of a list of edits.
pub open spec fn views_of(s: Seq<Edit>) -> Seq<EditModel> {
    s.map_values(|e: Edit| e@)
}

/// An edit is well formed for a document of `len` bytes when its range is a
/// real range of that document.
pub open spec fn edit_wf(e: EditModel, len: nat) -> bool {
    0 <= e.start <= e.end <= len
}

pub open spec fn all_edits_wf(s: Seq<EditModel>, len: nat) -> bool {
    forall|i: int| 0 <= i < s.len() ==> edit_wf(#[trigger] s[i], len)
}

/// Sorted by start offset, non-strictly.
pub open spec fn edits_sorted(s: Seq<EditModel>) -> bool {
    forall|i: int, j: int|
        0 <= i < j < s.len() ==> (#[trigger] s[i]).start <= (#[trigger] s[j]).start
}

/// Each edit ends no later than the next one starts, in original-text
/// coordinates; on a sorted sequence this makes all ranges pairwise disjoint.
pub open spec fn edits_disjoint(s: Seq<EditModel>) -> bool {
    forall|i: int, j: int|
        0 <= i && j == i + 1 && j < s.len() ==> (#[trigger] s[i]).end <= (#[trigger] s[j]).start
}

/// Where a stable insertion by start offset puts `e`: after every element
/// with a smaller-or-equal start, before every element with a greater one.
pub open spec fn insert_sorted(e: EditModel, s: Seq<EditModel>) -> Seq<EditModel>
    decreases s.len(),
{
    if s.len() == 0 {
        seq![e]
    } else if s.last().start <= e.start {
        s.push(e)
    } else {
        insert_sorted(e, s.drop_last()).push(s.last())
    }
}

/// Stable sort by start offset: edits with equal starts keep their
/// insertion order.
pub open spec fn sort_edits(s: Seq<EditModel>) -> Seq<EditModel>
    decreases s.len(),
{
    if s.len() == 0 {
        Seq::<EditModel>::empty()
    } else {
        insert_sorted(s.last(), sort_edits(s.drop_last()))
    }
}

/// The rewritten text, for sorted disjoint edits: text between edits is
/// kept, each edit's range is replaced by its content. `from` is the cursor
/// into the original text.
pub open spec fn apply_spec(text: Seq<u8>, s: Seq<EditModel>, from: int) -> Seq<u8>
    decreases s.len(),
{
    if s.len() == 0 {
        text.subrange(from, text.len() as int)
    } else {
        text.subrange(from, s[0].start) + s[0].content + apply_spec(text, s.drop_first(), s[0].end)
    }
}

/// A stable insertion at the position the executable search finds is the
/// same sequence as `insert_sorted`.
proof fn lemma_insert_sorted_is_insert(e: EditModel, s: Seq<EditModel>, k: int)
    requires
        0 <= k <= s.len(),
        forall|m: int| k <= m < s.len() ==> (#[trigger] s[m]).start > e.start,
        k > 0 ==> s[k - 1].start <= e.start,
    ensures
        insert_sorted(e, s) =~= s.insert(k, e),
    decreases s.len(),
{
    if s.len() == 0 {
    } else if s.last().start <= e.start {
        assert(k == s.len());
    } else {
        assert(k < s.len());
        lemma_insert_sorted_is_insert(e, s.drop_last(), k);
    }
}

/// Append the bytes `src[start..end]` to `out`.
#[verifier::loop_isolation(false)]
pub fn push_range(out: &mut Vec<u8>, src: &Vec<u8>, start: usize, end: usize)
    requires
        start <= end <= src@.len(),
    ensures
        final(out)@ == old(out)@ + src@.subrange(start as int, end as int),
{
    let ghost orig = old(out)@;
    let mut i: usize = start;
    while i < end
        invariant
            start <= i <= end,
            out@ == orig + src@.subrange(start as int, i as int),
        decreases end - i,
    {
        out.push(src[i]);
        proof {
            assert(src@.subrange(start as int, i + 1 as int) =~= src@.subrange(
                start as int,
                i as int,
            ).push(src@[i as int]));
        }
        i = i + 1;
    }
    proof {
        assert(out@ =~= orig + src@.subrange(start as int, end as int));
    }
}

/// Stable insertion sort by start offset. The ghost `len` carries the
/// document length so well-formedness of the edits survives the sort.
#[verifier::loop_isolation(false)]
fn sort_edits_exec(edits: Vec<Edit>, Ghost(len): Ghost<nat>) -> (r: Vec<Edit>)
    requires
        all_edits_wf(views_of(edits@), len),
    ensures
        views_of(r@) == sort_edits(views_of(edits@)),
        edits_sorted(views_of(r@)),
        all_edits_wf(views_of(r@), len),
{
    let ghost orig = views_of(edits@);
    let mut rest = edits;
    let mut out: Vec<Edit> = Vec::new();
    let ghost j: int = 0;
    while rest.len() > 0
        invariant
            0 <= j <= orig.len(),
            views_of(rest@) == orig.skip(j),
            views_of(out@) == sort_edits(orig.take(j)),
            edits_sorted(views_of(out@)),
            all_edits_wf(views_of(out@), len),
        decreases rest@.len(),
    {
        proof {
            assert(views_of(rest@)[0] == rest@[0]@);
        }
        let ghost prev = rest@;
        let e = rest.remove(0);
        proof {
            assert(e@ == orig[j]);
            assert forall|m: int| 0 <= m < rest@.len() implies #[trigger] views_of(rest@)[m]
                == orig.skip(j + 1)[m] by {
                assert(rest@[m] == prev[m + 1]);
                assert(views_of(prev)[m + 1] == prev[m + 1]@);
                assert(views_of(prev)[m + 1] == orig.skip(j)[m + 1]);
            }
            assert(views_of(rest@) =~= orig.skip(j + 1));
        }
        let ghost vout = views_of(out@);
        let mut idx: usize = out.len();
        while idx > 0 && out[idx - 1].start_byte > e.start_byte
            invariant
                0 <= idx <= out@.len(),
                views_of(out@) == vout,
                forall|m: int| idx <= m < vout.len() ==> (#[trigger] vout[m]).start > e@.start,
            decreases idx,
        {
            proof {
                assert(vout[idx - 1] == out@[idx - 1]@);
            }
            idx = idx - 1;
        }
        proof {
            assert(idx > 0 ==> vout[idx - 1].start <= e@.start) by {
                if idx > 0 {
                    assert(vout[idx - 1] == out@[idx - 1]@);
                }
            }
            lemma_insert_sorted_is_insert(e@, vout, idx as int);
            assert(orig.take(j + 1).drop_last() =~= orig.take(j));
            assert(orig.take(j + 1).last() == orig[j]);
        }
        out.insert(idx, e);
        proof {
            assert(views_of(out@) =~= vout.insert(idx as int, e@));
            assert(views_of(out@) == sort_edits(orig.take(j + 1)));
            vout.insert_ensures(idx as int, e@);
            j = j + 1;
        }
    }
    proof {
        assert(orig.take(j) =~= orig);
    }
    out
}

/// True exactly when each edit ends no later than the next begins.
#[verifier::loop_isolation(false)]
fn check_disjoint(s: &Vec<Edit>) -> (r: bool)
    ensures
        r == edits_disjoint(views_of(s@)),
{
    let ghost v = views_of(s@);
    let mut k: usize = 1;
    while k < s.len()
        invariant
            1 <= k,
            forall|m: int, n: int|
                0 <= m && n == m + 1 && n < v.len() && m < k - 1 ==> (#[trigger] v[m]).end <= (
                #[trigger] v[n]).start,
        decreases v.len() - k,
    {
        proof {
            assert(v[k - 1] == s@[k - 1]@);
            assert(v[k as int] == s@[k as int]@);
        }
        if s[k - 1].end_byte > s[k].start_byte {
            return false;
        }
        k = k + 1;
    }
    true
}

/// Rewrite `text` by a list of edits already known to be disjoint in order.
#[verifier::loop_isolation(false)]
fn apply_sorted(text: &Vec<u8>, s: &Vec<Edit>) -> (out: Vec<u8>)
    requires
        all_edits_wf(views_of(s@), text@.len()),
        edits_disjoint(views_of(s@)),
    ensures
        out@ == apply_spec(text@, views_of(s@), 0),
{
    let ghost v = views_of(s@);
    let mut out: Vec<u8> = Vec::new();
    let mut pos: usize = 0;
    let mut i: usize = 0;
    proof {
        assert(v.skip(0) =~= v);
        assert(Seq::<u8>::empty() + apply_spec(text@, v, 0) =~= apply_spec(text@, v, 0));
    }
    while i < s.len()
        invariant
            0 <= i <= v.len(),
            i < v.len() ==> pos <= v[i as int].start,
            i == v.len() ==> pos <= text@.len(),
            pos == if i == 0 {
                0
            } else {
                v[i - 1].end
            },
            out@ + apply_spec(text@, v.skip(i as int), pos as int) == apply_spec(text@, v, 0),
        decreases v.len() - i,
    {
        let ghost pre = out@;
        let ghost tail = v.skip(i as int);
        proof {
            assert(v[i as int] == s@[i as int]@);
            assert(tail[0] == v[i as int]);
            assert(tail.drop_first() =~= v.skip(i + 1));
        }
        push_range(&mut out, text, pos, s[i].start_byte);
        push_range(&mut out, &s[i].new_content, 0, s[i].new_content.len());
        proof {
            assert(s@[i as int].new_content@.subrange(
                0,
                s@[i as int].new_content@.len() as int,
            ) =~= s@[i as int].new_content@);
            assert(apply_spec(text@, tail, pos as int) == text@.subrange(pos as int, tail[0].start)
                + tail[0].content + apply_spec(text@, tail.drop_first(), tail[0].end));
            assert(out@ + apply_spec(text@, v.skip(i + 1), v[i as int].end) =~= pre + apply_spec(
                text@,
                tail,
                pos as int,
            ));
        }
        pos = s[i].end_byte;
        i = i + 1;
        proof {
            if i < v.len() {
                assert(v[i - 1].end <= v[i as int].start);
            }
        }
    }
    let ghost pre = out@;
    push_range(&mut out, text, pos, text.len());
    proof {
        assert(v.skip(v.len() as int) =~= Seq::<EditModel>::empty());
        assert(apply_spec(text@, v.skip(v.len() as int), pos as int) == text@.subrange(
            pos as int,
            text@.len() as int,
        ));
        assert(out@ =~= pre + apply_spec(text@, v.skip(v.len() as int), pos as int));
    }
    out
}

/// Apply the planned edits as one atomic rewrite.
///
/// The edits are stably sorted by start offset; if, after sorting, any edit
/// ends past the start of the next one, the whole rewrite is refused with
/// `EditsOverlap`. Otherwise the result keeps every byte outside the edited
/// ranges and replaces each range with its edit's content.
pub fn apply_edits(text: &Vec<u8>, edits: Vec<Edit>) -> (r: Result<Vec<u8>, BundleError>)
    requires
        all_edits_wf(views_of(edits@), text@.len()),
    ensures
        edits_disjoint(sort_edits(views_of(edits@))) ==> (r matches Ok(out) && out@ == apply_spec(
            text@,
            sort_edits(views_of(edits@)),
            0,
        )),
        !edits_disjoint(sort_edits(views_of(edits@))) ==> (r matches Err(e) && e@
            == ErrModel::EditsOverlap),
{
    let s = sort_edits_exec(edits, Ghost(text@.len()));
    if !check_disjoint(&s) {
        return Err(BundleError::EditsOverlap);
    }
    Ok(apply_sorted(text, &s))
}

} // verus!
