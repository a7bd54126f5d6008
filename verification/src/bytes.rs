use vstd::prelude::*;

use crate::edit::push_range;

verus! {

/// `source`, the long include-directive name.
pub open spec fn kw_source() -> Seq<u8> {
    seq![115u8, 111u8, 117u8, 114u8, 99u8, 101u8]
}

/// `.`, the short include-directive name.
pub open spec fn kw_dot() -> Seq<u8> {
    seq![46u8]
}

/// `# build: inline`, the exact marker comment of an inline-build pair.
pub open spec fn kw_build_marker() -> Seq<u8> {
    seq![
        35u8,
        32u8,
        98u8,
        117u8,
        105u8,
        108u8,
        100u8,
        58u8,
        32u8,
        105u8,
        110u8,
        108u8,
        105u8,
        110u8,
        101u8,
    ]
}

pub fn kw_source_vec() -> (v: Vec<u8>)
    ensures
        v@ == kw_source(),
{
    let mut v: Vec<u8> = Vec::new();
    v.push(115u8);
    v.push(111u8);
    v.push(117u8);
    v.push(114u8);
    v.push(99u8);
    v.push(101u8);
    proof {
        assert(v@ =~= kw_source());
    }
    v
}

pub fn kw_build_marker_vec() -> (v: Vec<u8>)
    ensures
        v@ == kw_build_marker(),
{
    let mut v: Vec<u8> = Vec::new();
    v.push(35u8);
    v.push(32u8);
    v.push(98u8);
    v.push(117u8);
    v.push(105u8);
    v.push(108u8);
    v.push(100u8);
    v.push(58u8);
    v.push(32u8);
    v.push(105u8);
    v.push(110u8);
    v.push(108u8);
    v.push(105u8);
    v.push(110u8);
    v.push(101u8);
    proof {
        assert(v@ =~= kw_build_marker());
    }
    v
}

/// Copy of the bytes `src[start..end]`.
pub fn extract(src: &Vec<u8>, start: usize, end: usize) -> (r: Vec<u8>)
    requires
        start <= end <= src@.len(),
    ensures
        r@ == src@.subrange(start as int, end as int),
{
    let mut r: Vec<u8> = Vec::new();
    push_range(&mut r, src, start, end);
    proof {
        assert(r@ =~= src@.subrange(start as int, end as int));
    }
    r
}

/// A fresh vector with the same bytes.
pub fn copy_bytes(v: &Vec<u8>) -> (r: Vec<u8>)
    ensures
        r@ == v@,
{
    let r = extract(v, 0, v.len());
    proof {
        assert(v@.subrange(0, v@.len() as int) =~= v@);
    }
    r
}

/// Byte-wise equality of two vectors.
#[verifier::loop_isolation(false)]
pub fn bytes_eq(a: &Vec<u8>, b: &Vec<u8>) -> (r: bool)
    ensures
        r == (a@ == b@),
{
    if a.len() != b.len() {
        return false;
    }
    let mut k: usize = 0;
    while k < a.len()
        invariant
            0 <= k <= a@.len(),
            a@.len() == b@.len(),
            forall|m: int| 0 <= m < k ==> a@[m] == b@[m],
        decreases a@.len() - k,
    {
        if a[k] != b[k] {
            return false;
        }
        k = k + 1;
    }
    proof {
        assert(a@ =~= b@);
    }
    true
}

/// Does `src[start..end]` equal `pat`?
#[verifier::loop_isolation(false)]
pub fn match_range(src: &Vec<u8>, start: usize, end: usize, pat: &Vec<u8>) -> (r: bool)
    requires
        start <= end <= src@.len(),
    ensures
        r == (src@.subrange(start as int, end as int) == pat@),
{
    if end - start != pat.len() {
        return false;
    }
    let mut k: usize = 0;
    while k < pat.len()
        invariant
            0 <= k <= pat@.len(),
            pat@.len() == end - start,
            forall|m: int| 0 <= m < k ==> src@[start + m] == pat@[m],
        decreases pat@.len() - k,
    {
        if src[start + k] != pat[k] {
            proof {
                assert(src@.subrange(start as int, end as int)[k as int] == src@[start + k]);
            }
            return false;
        }
        k = k + 1;
    }
    proof {
        assert(src@.subrange(start as int, end as int) =~= pat@);
    }
    true
}

/// A comment at `start..end` opens with the two-byte interpreter-selector
/// marker `#!`.
pub open spec fn is_shebang(src: Seq<u8>, start: int, end: int) -> bool {
    &&& end - start >= 2
    &&& src[start] == 35u8
    &&& src[start + 1] == 33u8
}

pub fn is_shebang_exec(src: &Vec<u8>, start: usize, end: usize) -> (r: bool)
    requires
        start <= end <= src@.len(),
    ensures
        r == is_shebang(src@, start as int, end as int),
{
    end - start >= 2 && src[start] == 35u8 && src[start + 1] == 33u8
}

/// No line break occurs before `pos`: byte `pos` sits on the first line.
pub open spec fn on_first_line(src: Seq<u8>, pos: int) -> bool {
    forall|k: int| 0 <= k < pos ==> src[k] != 10u8
}

#[verifier::loop_isolation(false)]
pub fn on_first_line_exec(src: &Vec<u8>, pos: usize) -> (r: bool)
    requires
        pos <= src@.len(),
    ensures
        r == on_first_line(src@, pos as int),
{
    let mut k: usize = 0;
    while k < pos
        invariant
            0 <= k <= pos,
            forall|m: int| 0 <= m < k ==> src@[m] != 10u8,
        decreases pos - k,
    {
        if src[k] == 10u8 {
            return false;
        }
        k = k + 1;
    }
    true
}

} // verus!
