use vstd::prelude::*;
use vstd::string::StringSliceAdditionalSpecFns;

verus! {

/// The path separator.
pub const SEP: u8 = 0x2f;

/// Views of a sequence of byte vectors.
pub open spec fn views(v: Seq<Vec<u8>>) -> Seq<Seq<u8>> {
    v.map_values(|x: Vec<u8>| x@)
}

/// The finished segments and the segment in progress after reading `p`.
pub open spec fn split_state(p: Seq<u8>) -> (Seq<Seq<u8>>, Seq<u8>)
    decreases p.len(),
{
    if p.len() == 0 {
        (Seq::empty(), Seq::empty())
    } else {
        let (done, cur) = split_state(p.drop_last());
        if p.last() == SEP {
            if cur.len() > 0 {
                (done.push(cur), Seq::empty())
            } else {
                (done, cur)
            }
        } else {
            (done, cur.push(p.last()))
        }
    }
}

/// The non-empty `/`-separated segments of `p`, in order.
pub open spec fn segments(p: Seq<u8>) -> Seq<Seq<u8>> {
    let (done, cur) = split_state(p);
    if cur.len() > 0 {
        done.push(cur)
    } else {
        done
    }
}

/// Splits `path` at every `/`, skipping empty segments.
pub fn split_path(path: &str) -> (r: Vec<Vec<u8>>)
    ensures
        views(r@) == segments(path.spec_bytes()),
{
    let bytes = path.as_bytes();
    let mut done: Vec<Vec<u8>> = Vec::new();
    let mut cur: Vec<u8> = Vec::new();
    let mut i: usize = 0;
    while i < bytes.len()
        invariant
            i <= bytes@.len(),
            bytes@ == path.spec_bytes(),
            (views(done@), cur@) == split_state(bytes@.take(i as int)),
        decreases bytes@.len() - i,
    {
        let c = bytes[i];
        assert(bytes@.take(i + 1).drop_last() =~= bytes@.take(i as int));
        if c == SEP {
            if cur.len() > 0 {
                let ghost d0 = done@;
                done.push(cur);
                cur = Vec::new();
                assert(views(done@) =~= views(d0).push(split_state(bytes@.take(i as int)).1));
            }
        } else {
            cur.push(c);
        }
        i = i + 1;
    }
    assert(bytes@.take(i as int) =~= bytes@);
    if cur.len() > 0 {
        let ghost d0 = done@;
        let ghost c0 = cur@;
        done.push(cur);
        assert(views(done@) =~= views(d0).push(c0));
    }
    done
}

/// A copy of a list of segments.
pub fn clone_segments(segs: &Vec<Vec<u8>>) -> (r: Vec<Vec<u8>>)
    ensures
        views(r@) == views(segs@),
{
    let mut r: Vec<Vec<u8>> = Vec::new();
    let mut i: usize = 0;
    while i < segs.len()
        invariant
            i <= segs@.len(),
            views(r@) == views(segs@).take(i as int),
        decreases segs@.len() - i,
    {
        let ghost r0 = r@;
        r.push(crate::store::copy_bytes(&segs[i]));
        assert(views(r@) =~= views(r0).push(segs@[i as int]@));
        i = i + 1;
        assert(views(r@) =~= views(segs@).take(i as int));
    }
    assert(views(segs@).take(i as int) =~= views(segs@));
    r
}

} // verus!
