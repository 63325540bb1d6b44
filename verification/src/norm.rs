//! Lexical path normalization.
//!
//! A path is a sequence of bytes. `/` separates segments; a leading `/` or a
//! drive prefix such as `C:/` anchors the path; `.` segments stand for the
//! current directory and `..` segments for the parent directory.
//!
//! [`normalize`] resolves the `..` segments of a path against a reference
//! directory, purely lexically. A path without any `..` segment is returned
//! byte-for-byte unchanged. Otherwise the path is rewritten: `..` cancels the
//! closest preceding name, leftover leading `..` either fail an anchored path
//! or borrow trailing components from the reference directory, and `.`
//! segments other than a leading one are dropped along the way.

use vstd::prelude::*;

verus! {

/// The path separator byte (`/`).
pub const SEP: u8 = 47;
/// The `.` byte.
pub const DOT: u8 = 46;
/// The `:` byte.
pub const COLON: u8 = 58;

/// One component that survives classification: a parent reference (`..`)
/// or a literal name. Empty segments (duplicate separators) and `.` segments
/// classify to nothing.
pub enum Comp {
    Up,
    Name(Seq<u8>),
}

/// The anchor of a path: none (relative), the root `/`, or a drive prefix
/// such as `C:/`. The `Drive` payload is the prefix segment, e.g. `C:`.
pub enum Anchor {
    Rel,
    Root,
    Drive(Seq<u8>),
}

/// Splits `s` on `/`, with `cur` the partial segment read so far.
pub open spec fn split_acc(s: Seq<u8>, cur: Seq<u8>) -> Seq<Seq<u8>>
    decreases s.len(),
{
    if s.len() == 0 {
        seq![cur]
    } else if s[0] == SEP {
        seq![cur] + split_acc(s.skip(1), Seq::empty())
    } else {
        split_acc(s.skip(1), cur.push(s[0]))
    }
}

/// The `/`-delimited segments of a path, in order. The split is lossless:
/// duplicate separators yield empty segments, and a leading or trailing
/// separator yields a leading or trailing empty segment.
pub open spec fn segments_of(s: Seq<u8>) -> Seq<Seq<u8>> {
    split_acc(s, Seq::<u8>::empty())
}

/// Whether a segment is the current-directory marker `.`.
pub open spec fn is_cur(seg: Seq<u8>) -> bool {
    seg == seq![DOT]
}

/// Whether a segment is the parent-directory marker `..`.
pub open spec fn is_up(seg: Seq<u8>) -> bool {
    seg == seq![DOT, DOT]
}

/// Whether `b` is an ASCII letter.
pub open spec fn is_alpha(b: u8) -> bool {
    (65 <= b <= 90) || (97 <= b <= 122)
}

/// Whether a segment is a drive prefix, e.g. `C:`.
pub open spec fn is_drive_seg(seg: Seq<u8>) -> bool {
    seg.len() == 2 && is_alpha(seg[0]) && seg[1] == COLON
}

/// The anchor of a path with the given segments.
pub open spec fn anchor_of(segs: Seq<Seq<u8>>) -> Anchor {
    if segs.len() >= 2 && segs[0].len() == 0 {
        Anchor::Root
    } else if segs.len() >= 1 && is_drive_seg(segs[0]) {
        Anchor::Drive(segs[0])
    } else {
        Anchor::Rel
    }
}

/// The segments of a path without its anchor segment.
pub open spec fn body_of(segs: Seq<Seq<u8>>) -> Seq<Seq<u8>> {
    if anchor_of(segs) is Rel {
        segs
    } else {
        segs.skip(1)
    }
}

/// Whether a relative path spells its first segment as the `.` marker,
/// the convention a rewritten result keeps.
pub open spec fn has_dot_prefix(segs: Seq<Seq<u8>>) -> bool {
    anchor_of(segs) is Rel && segs.len() > 0 && is_cur(segs[0])
}

/// What a single segment contributes to the component sequence.
pub open spec fn comp_of_seg(seg: Seq<u8>) -> Seq<Comp> {
    if seg.len() == 0 || is_cur(seg) {
        Seq::<Comp>::empty()
    } else if is_up(seg) {
        seq![Comp::Up]
    } else {
        seq![Comp::Name(seg)]
    }
}

/// The classified components of a segment sequence, in order.
pub open spec fn comps_of(body: Seq<Seq<u8>>) -> Seq<Comp>
    decreases body.len(),
{
    if body.len() == 0 {
        Seq::<Comp>::empty()
    } else {
        comps_of(body.drop_last()) + comp_of_seg(body.last())
    }
}

/// Whether any segment is a parent reference.
pub open spec fn has_up(segs: Seq<Seq<u8>>) -> bool {
    exists|i: int| 0 <= i < segs.len() && is_up(#[trigger] segs[i])
}

/// Left-to-right cancellation: `..` cancels the most recently kept name, or
/// else counts as an unmatched leading parent reference. Returns the count of
/// unmatched leading parent references and the surviving names, in order.
pub open spec fn scan(cs: Seq<Comp>) -> (nat, Seq<Seq<u8>>)
    decreases cs.len(),
{
    if cs.len() == 0 {
        (0nat, Seq::<Seq<u8>>::empty())
    } else {
        let r = scan(cs.drop_last());
        match cs.last() {
            Comp::Up => if r.1.len() > 0 {
                (r.0, r.1.drop_last())
            } else {
                ((r.0 + 1) as nat, r.1)
            },
            Comp::Name(n) => (r.0, r.1.push(n)),
        }
    }
}

/// The names joined with single `/` separators.
pub open spec fn joined(names: Seq<Seq<u8>>) -> Seq<u8>
    decreases names.len(),
{
    if names.len() == 0 {
        Seq::<u8>::empty()
    } else if names.len() == 1 {
        names[0]
    } else {
        joined(names.drop_last()) + seq![SEP] + names.last()
    }
}

/// The name segments of a segment sequence, dropping empty and `.` and `..`
/// segments.
pub open spec fn name_segs(body: Seq<Seq<u8>>) -> Seq<Seq<u8>>
    decreases body.len(),
{
    if body.len() == 0 {
        Seq::<Seq<u8>>::empty()
    } else {
        name_segs(body.drop_last()) + if body.last().len() == 0 || is_cur(body.last())
            || is_up(body.last()) {
            Seq::<Seq<u8>>::empty()
        } else {
            seq![body.last()]
        }
    }
}

/// A valid reference directory: absolute and lexically clean, that is without
/// `.` or `..` segments.
pub open spec fn ref_dir_ok(d: Seq<u8>) -> bool {
    &&& d.len() > 0
    &&& d[0] == SEP
    &&& forall|i: int|
        0 <= i < segments_of(d).len() ==> !is_up(#[trigger] segments_of(d)[i]) && !is_cur(
            segments_of(d)[i],
        )
}

/// The directory levels of a reference directory, top-down.
pub open spec fn ref_names(d: Seq<u8>) -> Seq<Seq<u8>> {
    name_segs(body_of(segments_of(d)))
}

/// Whether the path contains a parent reference anywhere.
pub open spec fn has_parent_ref(p: Seq<u8>) -> bool {
    has_up(segments_of(p))
}

/// The count of leading parent references of `p` that its own components
/// cannot cancel.
pub open spec fn unmatched_ups(p: Seq<u8>) -> nat {
    scan(comps_of(body_of(segments_of(p)))).0
}

/// The names of `p` that survive cancellation, in order.
pub open spec fn surviving(p: Seq<u8>) -> Seq<Seq<u8>> {
    scan(comps_of(body_of(segments_of(p)))).1
}

/// The meaning of normalization. A path without parent references is kept
/// byte-for-byte. Otherwise the components are cancelled; an anchored path
/// must absorb every unmatched parent reference in its own anchor or the
/// call fails, while a relative path borrows levels from the reference
/// directory `d` and becomes absolute, failing if `d` is too shallow. A
/// relative path that cancels to nothing becomes `.`.
pub open spec fn norm_spec(p: Seq<u8>, d: Seq<u8>) -> Option<Seq<u8>> {
    let segs = segments_of(p);
    if !has_up(segs) {
        Some(p)
    } else {
        let up = unmatched_ups(p);
        let stack = surviving(p);
        match anchor_of(segs) {
            Anchor::Root => if up > 0 {
                None
            } else {
                Some(seq![SEP] + joined(stack))
            },
            Anchor::Drive(pre) => if up > 0 {
                None
            } else {
                Some(pre + seq![SEP] + joined(stack))
            },
            Anchor::Rel => {
                let dn = ref_names(d);
                if up > dn.len() {
                    None
                } else if up > 0 {
                    Some(seq![SEP] + joined(dn.take(dn.len() - up) + stack))
                } else if stack.len() == 0 {
                    Some(seq![DOT])
                } else if has_dot_prefix(segs) {
                    Some(seq![DOT, SEP] + joined(stack))
                } else {
                    Some(joined(stack))
                }
            },
        }
    }
}

/// The views of a sequence of byte vectors.
pub open spec fn views_of(segs: Seq<Vec<u8>>) -> Seq<Seq<u8>> {
    segs.map_values(|v: Vec<u8>| v@)
}

/// Splits a path into its `/`-delimited segments.
fn split(p: &[u8]) -> (segs: Vec<Vec<u8>>)
    ensures
        views_of(segs@) == segments_of(p@),
{
    let n = p.len();
    let mut segs: Vec<Vec<u8>> = Vec::new();
    let mut cur: Vec<u8> = Vec::new();
    let mut i: usize = 0;
    proof {
        assert(views_of(segs@) =~= Seq::<Seq<u8>>::empty());
        assert(p@.skip(0) =~= p@);
    }
    while i < n
        invariant
            n == p@.len(),
            i <= n,
            segments_of(p@) == views_of(segs@) + split_acc(p@.skip(i as int), cur@),
        decreases n - i,
    {
        proof {
            assert(p@.skip(i as int).len() == n - i);
            assert(p@.skip(i as int)[0] == p@[i as int]);
            assert(p@.skip(i as int).skip(1) =~= p@.skip(i as int + 1));
        }
        let ghost cur0 = cur@;
        let ghost segs0 = views_of(segs@);
        if p[i] == SEP {
            segs.push(cur);
            cur = Vec::new();
            proof {
                assert(views_of(segs@) =~= segs0.push(cur0));
                assert(split_acc(p@.skip(i as int), cur0) == seq![cur0] + split_acc(
                    p@.skip(i as int + 1),
                    Seq::<u8>::empty(),
                ));
                assert(views_of(segs@) + split_acc(p@.skip(i as int + 1), cur@) =~= segs0
                    + split_acc(p@.skip(i as int), cur0));
            }
        } else {
            cur.push(p[i]);
            proof {
                assert(split_acc(p@.skip(i as int), cur0) == split_acc(
                    p@.skip(i as int + 1),
                    cur0.push(p@[i as int]),
                ));
            }
        }
        i += 1;
    }
    proof {
        assert(p@.skip(n as int).len() == 0);
    }
    let ghost segs1 = views_of(segs@);
    segs.push(cur);
    proof {
        assert(views_of(segs@) =~= segs1.push(cur@));
        assert(views_of(segs@) =~= segments_of(p@));
    }
    segs
}

/// A split always yields at least one segment.
proof fn lemma_split_acc_len(s: Seq<u8>, cur: Seq<u8>)
    ensures
        split_acc(s, cur).len() >= 1,
    decreases s.len(),
{
    if s.len() == 0 {
    } else if s[0] == SEP {
        lemma_split_acc_len(s.skip(1), Seq::<u8>::empty());
    } else {
        lemma_split_acc_len(s.skip(1), cur.push(s[0]));
    }
}

/// Whether the segment is exactly `.`.
fn seg_is_cur(seg: &Vec<u8>) -> (b: bool)
    ensures
        b == is_cur(seg@),
{
    if seg.len() == 1 && seg[0] == DOT {
        proof {
            assert(seg@ =~= seq![DOT]);
        }
        true
    } else {
        proof {
            if seg@ == seq![DOT] {
                assert(seg@.len() == 1 && seg@[0] == DOT);
            }
        }
        false
    }
}

/// Whether the segment is exactly `..`.
fn seg_is_up(seg: &Vec<u8>) -> (b: bool)
    ensures
        b == is_up(seg@),
{
    if seg.len() == 2 && seg[0] == DOT && seg[1] == DOT {
        proof {
            assert(seg@ =~= seq![DOT, DOT]);
        }
        true
    } else {
        proof {
            if seg@ == seq![DOT, DOT] {
                assert(seg@.len() == 2 && seg@[0] == DOT && seg@[1] == DOT);
            }
        }
        false
    }
}

/// Whether the segment is a drive prefix such as `C:`.
fn seg_is_drive(seg: &Vec<u8>) -> (b: bool)
    ensures
        b == is_drive_seg(seg@),
{
    if seg.len() == 2 {
        let b0 = seg[0];
        let b1 = seg[1];
        ((65 <= b0 && b0 <= 90) || (97 <= b0 && b0 <= 122)) && b1 == COLON
    } else {
        false
    }
}

/// Whether any segment is a parent reference.
fn contains_up(segs: &Vec<Vec<u8>>) -> (b: bool)
    ensures
        b == has_up(views_of(segs@)),
{
    let mut j: usize = 0;
    while j < segs.len()
        invariant
            j <= segs.len(),
            forall|k: int| 0 <= k < j ==> !is_up(#[trigger] views_of(segs@)[k]),
        decreases segs.len() - j,
    {
        if seg_is_up(&segs[j]) {
            proof {
                assert(is_up(views_of(segs@)[j as int]));
            }
            return true;
        }
        j += 1;
    }
    false
}

/// Appends all of `src` to `out`.
fn push_all(out: &mut Vec<u8>, src: &[u8])
    ensures
        final(out)@ == old(out)@ + src@,
{
    let n = src.len();
    let mut i: usize = 0;
    proof {
        assert(out@ =~= old(out)@ + src@.take(0));
    }
    while i < n
        invariant
            n == src@.len(),
            i <= n,
            out@ == old(out)@ + src@.take(i as int),
        decreases n - i,
    {
        out.push(src[i]);
        proof {
            assert(old(out)@ + src@.take(i as int + 1) =~= (old(out)@ + src@.take(i as int)).push(
                src@[i as int],
            ));
        }
        i += 1;
    }
    proof {
        assert(src@.take(n as int) =~= src@);
    }
}

/// Appends the names to `out`, joined with single `/` separators.
fn join_into(out: &mut Vec<u8>, names: &Vec<Vec<u8>>)
    ensures
        final(out)@ == old(out)@ + joined(views_of(names@)),
{
    let ghost vn = views_of(names@);
    let mut k: usize = 0;
    proof {
        assert(out@ =~= old(out)@ + joined(vn.take(0)));
    }
    while k < names.len()
        invariant
            k <= names.len(),
            vn == views_of(names@),
            out@ == old(out)@ + joined(vn.take(k as int)),
        decreases names.len() - k,
    {
        proof {
            assert(vn.take(k as int + 1).drop_last() =~= vn.take(k as int));
            assert(vn.take(k as int + 1).last() == vn[k as int]);
            assert(vn[k as int] == names@[k as int]@);
        }
        if k > 0 {
            out.push(SEP);
        }
        let nk = &names[k];
        push_all(out, nk.as_slice());
        proof {
            if k == 0 {
                assert(joined(vn.take(1)) == vn.take(1)[0]);
                assert(out@ =~= old(out)@ + joined(vn.take(1)));
            } else {
                assert(joined(vn.take(k as int + 1)) == joined(vn.take(k as int)) + seq![SEP]
                    + vn[k as int]);
                assert(out@ =~= old(out)@ + joined(vn.take(k as int + 1)));
            }
        }
        k += 1;
    }
    proof {
        assert(vn.take(names@.len() as int) =~= vn);
    }
}

/// The directory levels of a valid reference directory, as owned segments.
fn dir_names(d: &[u8]) -> (names: Vec<Vec<u8>>)
    requires
        ref_dir_ok(d@),
    ensures
        views_of(names@) == ref_names(d@),
{
    let segs = split(d);
    let ghost vsegs = views_of(segs@);
    proof {
        assert(segments_of(d@) == seq![Seq::<u8>::empty()] + split_acc(
            d@.skip(1),
            Seq::<u8>::empty(),
        ));
        lemma_split_acc_len(d@.skip(1), Seq::<u8>::empty());
        assert(vsegs.len() >= 2);
        assert(vsegs[0].len() == 0);
        assert(anchor_of(vsegs) is Root);
        assert(body_of(vsegs) == vsegs.skip(1));
    }
    let ghost gbody = body_of(vsegs);
    let mut names: Vec<Vec<u8>> = Vec::new();
    let mut j: usize = 1;
    proof {
        assert(views_of(names@) =~= name_segs(gbody.take(0)));
    }
    while j < segs.len()
        invariant
            1 <= j <= segs.len(),
            views_of(segs@) == segments_of(d@),
            vsegs == views_of(segs@),
            gbody == body_of(vsegs),
            gbody == vsegs.skip(1),
            ref_dir_ok(d@),
            views_of(names@) == name_segs(gbody.take(j as int - 1)),
        decreases segs.len() - j,
    {
        let ghost k = j as int - 1;
        proof {
            assert(gbody.take(k + 1).drop_last() =~= gbody.take(k));
            assert(gbody.take(k + 1).last() == gbody[k]);
            assert(gbody[k] == vsegs[j as int]);
            assert(!is_up(segments_of(d@)[j as int]) && !is_cur(segments_of(d@)[j as int]));
        }
        let sj = &segs[j];
        if sj.len() > 0 {
            let ghost nv0 = views_of(names@);
            names.push(vstd::slice::slice_to_vec(sj.as_slice()));
            proof {
                assert(views_of(names@) =~= nv0.push(vsegs[j as int]));
                assert(name_segs(gbody.take(k + 1)) =~= nv0.push(vsegs[j as int]));
            }
        } else {
            proof {
                assert(name_segs(gbody.take(k + 1)) =~= name_segs(gbody.take(k)));
            }
        }
        j += 1;
    }
    proof {
        assert(gbody.take(segs@.len() - 1) =~= gbody);
    }
    names
}

/// Whether `d` can serve as a reference directory: absolute and lexically
/// clean. Callers that receive the directory at run time can test it here
/// before normalizing against it.
pub fn ref_dir_valid(d: &[u8]) -> (b: bool)
    ensures
        b == ref_dir_ok(d@),
{
    if d.len() == 0 || d[0] != SEP {
        return false;
    }
    let segs = split(d);
    let mut j: usize = 0;
    while j < segs.len()
        invariant
            j <= segs.len(),
            views_of(segs@) == segments_of(d@),
            forall|k: int|
                0 <= k < j ==> !is_up(#[trigger] segments_of(d@)[k]) && !is_cur(
                    segments_of(d@)[k],
                ),
        decreases segs.len() - j,
    {
        let sj = &segs[j];
        proof {
            assert(views_of(segs@)[j as int] == segs@[j as int]@);
        }
        if seg_is_up(sj) || seg_is_cur(sj) {
            proof {
                assert(is_up(segments_of(d@)[j as int]) || is_cur(segments_of(d@)[j as int]));
            }
            return false;
        }
        j += 1;
    }
    true
}

/// Normalizes `path` against the reference directory `current_dir`, purely
/// lexically. Returns `None` exactly when leading parent references would
/// walk above the available root. The reference directory must be absolute
/// and lexically clean; it is read, never touched on disk.
pub fn normalize(path: &[u8], current_dir: &[u8]) -> (r: Option<Vec<u8>>)
    requires
        ref_dir_ok(current_dir@),
    ensures
        r.deep_view() == norm_spec(path@, current_dir@),
{
    let segs = split(path);
    let ghost vsegs = views_of(segs@);
    if !contains_up(&segs) {
        let out = vstd::slice::slice_to_vec(path);
        proof {
            assert(out.deep_view() =~= path@);
        }
        return Some(out);
    }
    let is_root = if segs.len() >= 2 {
        let s0 = &segs[0];
        s0.len() == 0
    } else {
        false
    };
    let is_drive = if !is_root {
        let s0 = &segs[0];
        seg_is_drive(s0)
    } else {
        false
    };
    let dot_prefix = if !is_root && !is_drive {
        let s0 = &segs[0];
        seg_is_cur(s0)
    } else {
        false
    };
    proof {
        assert(vsegs[0] == segs@[0]@);
        if is_root {
            assert(anchor_of(vsegs) is Root);
        } else if is_drive {
            assert(anchor_of(vsegs) matches Anchor::Drive(pre) && pre == vsegs[0]);
        } else {
            assert(anchor_of(vsegs) is Rel);
            assert(dot_prefix == has_dot_prefix(vsegs));
        }
    }
    let body_start: usize = if is_root || is_drive {
        1
    } else {
        0
    };
    let ghost gbody = body_of(vsegs);
    proof {
        assert(gbody =~= vsegs.skip(body_start as int));
    }
    let mut up: usize = 0;
    let mut stack: Vec<Vec<u8>> = Vec::new();
    let mut j: usize = body_start;
    proof {
        assert(gbody.take(0) =~= Seq::<Seq<u8>>::empty());
        assert(views_of(stack@) =~= scan(comps_of(gbody.take(0))).1);
    }
    while j < segs.len()
        invariant
            body_start <= j <= segs.len(),
            up <= j - body_start,
            vsegs == views_of(segs@),
            gbody == vsegs.skip(body_start as int),
            up as nat == scan(comps_of(gbody.take(j as int - body_start as int))).0,
            views_of(stack@) == scan(comps_of(gbody.take(j as int - body_start as int))).1,
        decreases segs.len() - j,
    {
        let ghost k = j as int - body_start as int;
        let ghost cs = comps_of(gbody.take(k));
        proof {
            assert(gbody.take(k + 1).drop_last() =~= gbody.take(k));
            assert(gbody.take(k + 1).last() == gbody[k]);
            assert(gbody[k] == vsegs[j as int]);
            assert(comps_of(gbody.take(k + 1)) == cs + comp_of_seg(gbody[k]));
        }
        let sj = &segs[j];
        let empty_or_cur = sj.len() == 0 || seg_is_cur(sj);
        if empty_or_cur {
            proof {
                assert(comps_of(gbody.take(k + 1)) =~= cs);
            }
        } else if seg_is_up(sj) {
            proof {
                assert((cs + seq![Comp::Up]).drop_last() =~= cs);
                assert((cs + seq![Comp::Up]).last() == Comp::Up);
                assert(comps_of(gbody.take(k + 1)) =~= cs + seq![Comp::Up]);
            }
            if stack.len() > 0 {
                let ghost sv0 = views_of(stack@);
                stack.pop();
                proof {
                    assert(views_of(stack@) =~= sv0.drop_last());
                }
            } else {
                up += 1;
            }
        } else {
            proof {
                assert((cs + seq![Comp::Name(vsegs[j as int])]).drop_last() =~= cs);
                assert((cs + seq![Comp::Name(vsegs[j as int])]).last() == Comp::Name(
                    vsegs[j as int],
                ));
                assert(comps_of(gbody.take(k + 1)) =~= cs + seq![Comp::Name(vsegs[j as int])]);
            }
            let ghost sv0 = views_of(stack@);
            stack.push(vstd::slice::slice_to_vec(sj.as_slice()));
            proof {
                assert(views_of(stack@) =~= sv0.push(vsegs[j as int]));
            }
        }
        j += 1;
    }
    proof {
        assert(gbody.take(segs@.len() - body_start as int) =~= gbody);
        assert(up as nat == unmatched_ups(path@));
        assert(views_of(stack@) == surviving(path@));
    }
    let ghost stv = views_of(stack@);
    if is_root {
        if up > 0 {
            return None;
        }
        let mut out: Vec<u8> = Vec::new();
        out.push(SEP);
        proof {
            assert(out@ =~= seq![SEP]);
        }
        join_into(&mut out, &stack);
        proof {
            assert(out.deep_view() =~= out@);
        }
        return Some(out);
    }
    if is_drive {
        if up > 0 {
            return None;
        }
        let s0 = &segs[0];
        let mut out: Vec<u8> = vstd::slice::slice_to_vec(s0.as_slice());
        out.push(SEP);
        proof {
            assert(out@ =~= vsegs[0] + seq![SEP]);
        }
        join_into(&mut out, &stack);
        proof {
            assert(out@ =~= vsegs[0] + seq![SEP] + joined(stv));
            assert(out.deep_view() =~= out@);
        }
        return Some(out);
    }
    // relative input
    let mut dn = dir_names(current_dir);
    let ghost dnv = views_of(dn@);
    if up > 0 {
        if up > dn.len() {
            return None;
        }
        let keep = dn.len() - up;
        dn.truncate(keep);
        dn.append(&mut stack);
        proof {
            assert(views_of(dn@) =~= dnv.take(keep as int) + stv);
        }
        let mut out: Vec<u8> = Vec::new();
        out.push(SEP);
        proof {
            assert(out@ =~= seq![SEP]);
        }
        join_into(&mut out, &dn);
        proof {
            assert(out.deep_view() =~= out@);
        }
        return Some(out);
    }
    if stack.len() == 0 {
        let mut out: Vec<u8> = Vec::new();
        out.push(DOT);
        proof {
            assert(out@ =~= seq![DOT]);
            assert(out.deep_view() =~= out@);
        }
        return Some(out);
    }
    let mut out: Vec<u8> = Vec::new();
    if dot_prefix {
        out.push(DOT);
        out.push(SEP);
        proof {
            assert(out@ =~= seq![DOT, SEP]);
        }
    } else {
        proof {
            assert(out@ =~= Seq::<u8>::empty());
        }
    }
    join_into(&mut out, &stack);
    proof {
        assert(out.deep_view() =~= out@);
        if dot_prefix {
            assert(out@ =~= seq![DOT, SEP] + joined(stv));
        } else {
            assert(out@ =~= joined(stv));
        }
    }
    Some(out)
}

/// The accumulated partial segment is a prefix of the first segment of the
/// split.
proof fn lemma_split_first_prefix(s: Seq<u8>, cur: Seq<u8>)
    ensures
        split_acc(s, cur).len() >= 1,
        cur.is_prefix_of(split_acc(s, cur)[0]),
    decreases s.len(),
{
    if s.len() == 0 {
        assert(cur.is_prefix_of(cur));
    } else if s[0] == SEP {
        assert((seq![cur] + split_acc(s.skip(1), Seq::<u8>::empty()))[0] == cur);
        assert(cur.is_prefix_of(cur));
    } else {
        lemma_split_first_prefix(s.skip(1), cur.push(s[0]));
        let x0 = split_acc(s, cur)[0];
        assert(cur.push(s[0]).is_prefix_of(x0));
        assert(cur =~= x0.take(cur.len() as int));
    }
}

/// The first segment of the split, beyond the accumulated part, is a prefix
/// of the rest of the path.
proof fn lemma_split_first_of(s: Seq<u8>, cur: Seq<u8>)
    ensures
        split_acc(s, cur)[0].skip(cur.len() as int).is_prefix_of(s),
    decreases s.len(),
{
    if s.len() == 0 {
        assert(split_acc(s, cur)[0] == cur);
        assert(cur.skip(cur.len() as int) =~= Seq::<u8>::empty());
        assert(Seq::<u8>::empty().is_prefix_of(s));
    } else if s[0] == SEP {
        assert(split_acc(s, cur)[0] == cur);
        assert(cur.skip(cur.len() as int) =~= Seq::<u8>::empty());
        assert(Seq::<u8>::empty().is_prefix_of(s));
    } else {
        lemma_split_first_of(s.skip(1), cur.push(s[0]));
        lemma_split_first_prefix(s.skip(1), cur.push(s[0]));
        let x0 = split_acc(s, cur)[0];
        assert(cur.push(s[0]) == x0.subrange(0, cur.len() as int + 1));
        assert(x0[cur.len() as int] == cur.push(s[0])[cur.len() as int]);
        assert(x0[cur.len() as int] == s[0]);
        assert(x0.skip(cur.len() as int + 1).is_prefix_of(s.skip(1)));
        assert(x0.skip(cur.len() as int) =~= seq![s[0]] + x0.skip(cur.len() as int + 1));
        assert(x0.skip(cur.len() as int).is_prefix_of(s)) by {
            assert(x0.skip(cur.len() as int) =~= s.take(x0.len() - cur.len()));
        }
    }
}

/// An anchored path starts with its anchor in the path text itself: a rooted
/// path starts with `/`, a drive-rooted path with its drive prefix.
proof fn lemma_anchor_textual(p: Seq<u8>)
    ensures
        anchor_of(segments_of(p)) is Root ==> p.len() > 0 && p[0] == SEP,
        anchor_of(segments_of(p)) matches Anchor::Drive(pre) ==> pre.is_prefix_of(p),
{
    let segs = segments_of(p);
    if anchor_of(segs) is Root {
        if p.len() == 0 {
            assert(segs =~= seq![Seq::<u8>::empty()]);
            assert(false);
        }
        if p[0] != SEP {
            lemma_split_first_prefix(p.skip(1), seq![p[0]]);
            assert(segs[0].len() >= 1);
            assert(false);
        }
    }
    if anchor_of(segs) matches Anchor::Drive(pre) {
        lemma_split_first_of(p, Seq::<u8>::empty());
        assert(segs[0].skip(0) =~= segs[0]);
    }
}

/// Law: a path without a parent reference is returned byte-for-byte
/// unchanged, whatever the reference directory.
pub proof fn lemma_no_parent_noop(p: Seq<u8>, d: Seq<u8>)
    requires
        !has_parent_ref(p),
    ensures
        norm_spec(p, d) == Some(p),
{
}

/// Law: re-normalizing a result that was returned unchanged is again a no-op:
/// a path without parent references normalizes to itself under any reference
/// directory, twice over.
pub proof fn lemma_fast_path_idempotent(p: Seq<u8>, d1: Seq<u8>, d2: Seq<u8>)
    requires
        !has_parent_ref(p),
    ensures
        norm_spec(p, d1) matches Some(r) && norm_spec(r, d2) == Some(r),
{
}

/// Law: an anchored path whose parent references all cancel within its own
/// components normalizes to a path that carries the same anchor, and the
/// reference directory plays no part in the outcome.
pub proof fn lemma_absolute_anchor_stable(p: Seq<u8>, d1: Seq<u8>, d2: Seq<u8>)
    requires
        !(anchor_of(segments_of(p)) is Rel),
        unmatched_ups(p) == 0,
    ensures
        norm_spec(p, d1) == norm_spec(p, d2),
        norm_spec(p, d1) is Some,
        anchor_of(segments_of(p)) is Root ==> (norm_spec(p, d1) matches Some(r) && r.len() > 0
            && r[0] == SEP),
        anchor_of(segments_of(p)) matches Anchor::Drive(pre) ==> (norm_spec(p, d1) matches Some(r)
            && pre.is_prefix_of(r)),
{
    lemma_anchor_textual(p);
    if has_up(segments_of(p)) {
        match anchor_of(segments_of(p)) {
            Anchor::Drive(pre) => {
                assert(norm_spec(p, d1) == Some(pre + seq![SEP] + joined(surviving(p))));
                assert(pre =~= (pre + seq![SEP] + joined(surviving(p))).take(pre.len() as int));
            },
            _ => {
            },
        }
    }
}

/// Prepending a parent reference to the components raises the unmatched count
/// by one and leaves the surviving names alone.
proof fn lemma_scan_prepend_up(cs: Seq<Comp>)
    ensures
        scan(seq![Comp::Up] + cs).0 == scan(cs).0 + 1,
        scan(seq![Comp::Up] + cs).1 == scan(cs).1,
    decreases cs.len(),
{
    if cs.len() == 0 {
        assert(scan(Seq::<Comp>::empty()).0 == 0);
        assert(scan(Seq::<Comp>::empty()).1 =~= Seq::<Seq<u8>>::empty());
        assert(seq![Comp::Up] + cs =~= seq![Comp::Up]);
        assert((seq![Comp::Up]).drop_last() =~= Seq::<Comp>::empty());
        assert((seq![Comp::Up]).last() == Comp::Up);
        assert(scan(seq![Comp::Up]).0 == 1);
        assert(scan(seq![Comp::Up]).1 =~= Seq::<Seq<u8>>::empty());
    } else {
        lemma_scan_prepend_up(cs.drop_last());
        let cs2 = seq![Comp::Up] + cs;
        assert(cs2.drop_last() =~= seq![Comp::Up] + cs.drop_last());
        assert(cs2.last() == cs.last());
        let r2 = scan(cs2.drop_last());
        let r = scan(cs.drop_last());
        assert(r2.0 == r.0 + 1 && r2.1 == r.1);
        match cs.last() {
            Comp::Up => {
                assert(scan(cs2).0 == scan(cs).0 + 1);
                assert(scan(cs2).1 == scan(cs).1);
            },
            Comp::Name(n) => {
                assert(scan(cs2).0 == scan(cs).0 + 1);
                assert(scan(cs2).1 == scan(cs).1);
            },
        }
    }
}

/// Prepending a segment prepends what it classifies to.
proof fn lemma_comps_prepend(seg: Seq<u8>, body: Seq<Seq<u8>>)
    ensures
        comps_of(seq![seg] + body) == comp_of_seg(seg) + comps_of(body),
    decreases body.len(),
{
    if body.len() == 0 {
        assert(seq![seg] + body =~= seq![seg]);
        assert((seq![seg]).drop_last() =~= Seq::<Seq<u8>>::empty());
        assert(comp_of_seg(seg) + comps_of(body) =~= comp_of_seg(seg));
        assert(comps_of(seq![seg]) == comps_of(Seq::<Seq<u8>>::empty()) + comp_of_seg(seg));
        assert(comps_of(Seq::<Seq<u8>>::empty()) + comp_of_seg(seg) =~= comp_of_seg(seg));
    } else {
        lemma_comps_prepend(seg, body.drop_last());
        assert((seq![seg] + body).drop_last() =~= seq![seg] + body.drop_last());
        assert((seq![seg] + body).last() == body.last());
        assert(comp_of_seg(seg) + comps_of(body) =~= (comp_of_seg(seg) + comps_of(
            body.drop_last(),
        )) + comp_of_seg(body.last()));
    }
}

/// Law: the more leading unmatched parent references a relative path has, the
/// more trailing levels are popped off the reference directory. Prepending
/// `../` to a relative path raises the unmatched count by exactly one while
/// keeping the surviving names; and a count beyond the directory's depth
/// always overflows, while one within it pops exactly that many levels and
/// yields an absolute result.
pub proof fn lemma_borrow_monotonic(p: Seq<u8>, d: Seq<u8>)
    requires
        anchor_of(segments_of(p)) is Rel,
    ensures
        unmatched_ups(seq![DOT, DOT, SEP] + p) == unmatched_ups(p) + 1,
        surviving(seq![DOT, DOT, SEP] + p) == surviving(p),
        has_parent_ref(p) && unmatched_ups(p) > ref_names(d).len() ==> norm_spec(p, d) is None,
        has_parent_ref(p) && 0 < unmatched_ups(p) <= ref_names(d).len() ==> norm_spec(p, d)
            == Some(
            seq![SEP] + joined(
                ref_names(d).take(ref_names(d).len() - unmatched_ups(p)) + surviving(p),
            ),
        ),
{
    let p2 = seq![DOT, DOT, SEP] + p;
    let up_seg = seq![DOT, DOT];
    assert(p2[0] == DOT && p2[1] == DOT && p2[2] == SEP);
    assert(split_acc(p2, Seq::<u8>::empty()) == split_acc(p2.skip(1), seq![DOT]));
    assert(p2.skip(1)[0] == DOT);
    assert(split_acc(p2.skip(1), seq![DOT]) == split_acc(p2.skip(1).skip(1), seq![DOT].push(
        DOT,
    )));
    assert(p2.skip(1).skip(1) =~= p2.skip(2));
    assert(seq![DOT].push(DOT) =~= up_seg);
    assert(p2.skip(2)[0] == SEP);
    assert(split_acc(p2.skip(2), up_seg) == seq![up_seg] + split_acc(
        p2.skip(2).skip(1),
        Seq::<u8>::empty(),
    ));
    assert(p2.skip(2).skip(1) =~= p);
    assert(segments_of(p2) == seq![up_seg] + segments_of(p));
    let segs = segments_of(p);
    let segs2 = segments_of(p2);
    assert(segs2[0] == up_seg);
    assert(!(segs2.len() >= 2 && segs2[0].len() == 0));
    assert(!is_drive_seg(up_seg));
    assert(anchor_of(segs2) is Rel);
    lemma_comps_prepend(up_seg, segs);
    assert(comp_of_seg(up_seg) =~= seq![Comp::Up]);
    assert(comps_of(segs2) == seq![Comp::Up] + comps_of(segs));
    lemma_scan_prepend_up(comps_of(segs));
    assert(body_of(segs2) == segs2 && body_of(segs) == segs);
}

/// Whether a segment is free of separators, as every true segment is.
pub open spec fn sep_free(seg: Seq<u8>) -> bool {
    forall|i: int| 0 <= i < seg.len() ==> seg[i] != SEP
}

/// A name as it can appear in a rewritten result: non-empty, free of
/// separators, and no `.` or `..` marker.
pub open spec fn plain_name(seg: Seq<u8>) -> bool {
    seg.len() > 0 && !is_cur(seg) && !is_up(seg) && sep_free(seg)
}

/// Every segment of a split is free of separators.
proof fn lemma_split_sep_free(s: Seq<u8>, cur: Seq<u8>)
    requires
        sep_free(cur),
    ensures
        forall|k: int|
            0 <= k < split_acc(s, cur).len() ==> sep_free(#[trigger] split_acc(s, cur)[k]),
    decreases s.len(),
{
    if s.len() == 0 {
        assert(split_acc(s, cur)[0] == cur);
    } else if s[0] == SEP {
        lemma_split_sep_free(s.skip(1), Seq::<u8>::empty());
        assert forall|k: int| 0 <= k < split_acc(s, cur).len() implies sep_free(
            #[trigger] split_acc(s, cur)[k],
        ) by {
            if k == 0 {
                assert(split_acc(s, cur)[0] == cur);
            } else {
                assert(split_acc(s, cur)[k] == split_acc(s.skip(1), Seq::<u8>::empty())[k - 1]);
            }
        }
    } else {
        assert(sep_free(cur.push(s[0])));
        lemma_split_sep_free(s.skip(1), cur.push(s[0]));
        assert forall|k: int| 0 <= k < split_acc(s, cur).len() implies sep_free(
            #[trigger] split_acc(s, cur)[k],
        ) by {
            assert(split_acc(s, cur)[k] == split_acc(s.skip(1), cur.push(s[0]))[k]);
        }
    }
}

/// A separator-free path splits into itself as its only segment.
proof fn lemma_split_whole(s: Seq<u8>, cur: Seq<u8>)
    requires
        sep_free(s),
    ensures
        split_acc(s, cur) == seq![cur + s],
    decreases s.len(),
{
    if s.len() == 0 {
        assert(cur + s =~= cur);
        assert(seq![cur] =~= seq![cur + s]);
    } else {
        assert(s[0] != SEP);
        assert(sep_free(s.skip(1)));
        lemma_split_whole(s.skip(1), cur.push(s[0]));
        assert(cur.push(s[0]) + s.skip(1) =~= cur + s);
        assert(seq![cur.push(s[0]) + s.skip(1)] =~= seq![cur + s]);
    }
}

/// Splitting a path that starts with a separator-free segment and a
/// separator splits off that segment.
proof fn lemma_split_seg_prepend(seg: Seq<u8>, rest: Seq<u8>, cur: Seq<u8>)
    requires
        sep_free(seg),
    ensures
        split_acc(seg + seq![SEP] + rest, cur) == seq![cur + seg] + split_acc(
            rest,
            Seq::<u8>::empty(),
        ),
    decreases seg.len(),
{
    let t = seg + seq![SEP] + rest;
    if seg.len() == 0 {
        assert(t[0] == SEP);
        assert(t.skip(1) =~= rest);
        assert(cur + seg =~= cur);
        assert(seq![cur] =~= seq![cur + seg]);
    } else {
        assert(t[0] == seg[0] && seg[0] != SEP);
        assert(t.skip(1) =~= seg.skip(1) + seq![SEP] + rest);
        assert(sep_free(seg.skip(1)));
        lemma_split_seg_prepend(seg.skip(1), rest, cur.push(seg[0]));
        assert(cur.push(seg[0]) + seg.skip(1) =~= cur + seg);
        assert(seq![cur.push(seg[0]) + seg.skip(1)] =~= seq![cur + seg]);
    }
}

/// Joining unfolds from the front as well.
proof fn lemma_joined_prepend(x: Seq<u8>, rest: Seq<Seq<u8>>)
    requires
        rest.len() >= 1,
    ensures
        joined(seq![x] + rest) == x + seq![SEP] + joined(rest),
    decreases rest.len(),
{
    let ns = seq![x] + rest;
    if rest.len() == 1 {
        assert(ns.drop_last() =~= seq![x]);
        assert(ns.last() == rest[0]);
        assert(joined(seq![x]) == x);
        assert(joined(rest) == rest[0]);
    } else {
        lemma_joined_prepend(x, rest.drop_last());
        assert(ns.drop_last() =~= seq![x] + rest.drop_last());
        assert(ns.last() == rest.last());
        assert(x + seq![SEP] + joined(rest) =~= (x + seq![SEP] + joined(rest.drop_last()))
            + seq![SEP] + rest.last());
    }
}

/// The split is lossless on rendered names: splitting a joined sequence of
/// separator-free names gives the names back.
proof fn lemma_split_joined(ns: Seq<Seq<u8>>)
    requires
        ns.len() >= 1,
        forall|k: int| 0 <= k < ns.len() ==> sep_free(#[trigger] ns[k]),
    ensures
        segments_of(joined(ns)) == ns,
    decreases ns.len(),
{
    if ns.len() == 1 {
        lemma_split_whole(ns[0], Seq::<u8>::empty());
        assert(joined(ns) == ns[0]);
        assert(Seq::<u8>::empty() + ns[0] =~= ns[0]);
        assert(seq![Seq::<u8>::empty() + ns[0]] =~= ns);
    } else {
        let tail = ns.skip(1);
        assert(ns =~= seq![ns[0]] + tail);
        lemma_joined_prepend(ns[0], tail);
        lemma_split_seg_prepend(ns[0], joined(tail), Seq::<u8>::empty());
        assert(forall|k: int| 0 <= k < tail.len() ==> sep_free(#[trigger] tail[k]));
        lemma_split_joined(tail);
        assert(Seq::<u8>::empty() + ns[0] =~= ns[0]);
        assert(segments_of(joined(ns)) =~= seq![ns[0]] + tail);
    }
}

/// The names that survive the scan are plain names whenever the named
/// components hold plain names.
proof fn lemma_scan_names_plain(cs: Seq<Comp>)
    requires
        forall|i: int|
            0 <= i < cs.len() ==> ((#[trigger] cs[i]) matches Comp::Name(n) ==> plain_name(n)),
    ensures
        forall|k: int| 0 <= k < scan(cs).1.len() ==> plain_name(#[trigger] scan(cs).1[k]),
    decreases cs.len(),
{
    if cs.len() == 0 {
    } else {
        lemma_scan_names_plain(cs.drop_last());
        let st = scan(cs.drop_last()).1;
        match cs.last() {
            Comp::Up => {
                if st.len() > 0 {
                    assert(forall|k: int|
                        0 <= k < st.drop_last().len() ==> st.drop_last()[k] == st[k]);
                }
            },
            Comp::Name(n) => {
                assert(cs[cs.len() - 1] == cs.last());
                assert(plain_name(n));
                assert(forall|k: int| 0 <= k < st.len() ==> st.push(n)[k] == st[k]);
                assert(st.push(n)[st.len() as int] == n);
            },
        }
    }
}

/// The components of separator-free segments name only plain names.
proof fn lemma_comps_names_plain(body: Seq<Seq<u8>>)
    requires
        forall|k: int| 0 <= k < body.len() ==> sep_free(#[trigger] body[k]),
    ensures
        forall|i: int|
            0 <= i < comps_of(body).len() ==> ((#[trigger] comps_of(body)[i]) matches Comp::Name(
                n,
            ) ==> plain_name(n)),
    decreases body.len(),
{
    if body.len() == 0 {
    } else {
        assert(forall|k: int|
            0 <= k < body.drop_last().len() ==> sep_free(#[trigger] body.drop_last()[k]));
        lemma_comps_names_plain(body.drop_last());
        let cs = comps_of(body.drop_last());
        assert forall|i: int| 0 <= i < comps_of(body).len() implies ((
        #[trigger] comps_of(body)[i]) matches Comp::Name(n) ==> plain_name(n)) by {
            if i < cs.len() {
                assert(comps_of(body)[i] == cs[i]);
            } else {
                assert(comps_of(body)[i] == comp_of_seg(body.last())[i - cs.len()]);
            }
        }
    }
}

/// The name segments of separator-free segments are plain names.
proof fn lemma_name_segs_plain(body: Seq<Seq<u8>>)
    requires
        forall|k: int| 0 <= k < body.len() ==> sep_free(#[trigger] body[k]),
    ensures
        forall|k: int| 0 <= k < name_segs(body).len() ==> plain_name(#[trigger] name_segs(body)[k]),
    decreases body.len(),
{
    if body.len() == 0 {
    } else {
        assert(forall|k: int|
            0 <= k < body.drop_last().len() ==> sep_free(#[trigger] body.drop_last()[k]));
        lemma_name_segs_plain(body.drop_last());
        let prev = name_segs(body.drop_last());
        assert forall|k: int| 0 <= k < name_segs(body).len() implies plain_name(
            #[trigger] name_segs(body)[k],
        ) by {
            if k < prev.len() {
                assert(name_segs(body)[k] == prev[k]);
            } else {
                assert(name_segs(body)[k] == body.last());
            }
        }
    }
}

/// A rendered absolute path (`/` plus joined plain names) holds no parent
/// reference.
proof fn lemma_abs_render_no_up(names: Seq<Seq<u8>>)
    requires
        forall|k: int| 0 <= k < names.len() ==> plain_name(#[trigger] names[k]),
    ensures
        !has_up(segments_of(seq![SEP] + joined(names))),
{
    let r = seq![SEP] + joined(names);
    assert(r[0] == SEP);
    assert(r.skip(1) =~= joined(names));
    assert(segments_of(r) == seq![Seq::<u8>::empty()] + split_acc(
        joined(names),
        Seq::<u8>::empty(),
    ));
    if names.len() == 0 {
        assert(joined(names) == Seq::<u8>::empty());
        assert(split_acc(Seq::<u8>::empty(), Seq::<u8>::empty()) == seq![Seq::<u8>::empty()]);
        assert forall|i: int| 0 <= i < segments_of(r).len() implies !is_up(
            #[trigger] segments_of(r)[i],
        ) by {
            assert(segments_of(r)[i].len() == 0);
        }
    } else {
        lemma_split_joined(names);
        assert forall|i: int| 0 <= i < segments_of(r).len() implies !is_up(
            #[trigger] segments_of(r)[i],
        ) by {
            if i == 0 {
                assert(segments_of(r)[i] == Seq::<u8>::empty());
            } else {
                assert(segments_of(r)[i] == names[i - 1]);
            }
        }
    }
}

/// A rendered drive-rooted path holds no parent reference.
proof fn lemma_drive_render_no_up(pre: Seq<u8>, names: Seq<Seq<u8>>)
    requires
        is_drive_seg(pre),
        forall|k: int| 0 <= k < names.len() ==> plain_name(#[trigger] names[k]),
    ensures
        !has_up(segments_of(pre + seq![SEP] + joined(names))),
{
    let r = pre + seq![SEP] + joined(names);
    assert(sep_free(pre)) by {
        assert(pre[0] != SEP && pre[1] != SEP);
    }
    lemma_split_seg_prepend(pre, joined(names), Seq::<u8>::empty());
    assert(Seq::<u8>::empty() + pre =~= pre);
    assert(segments_of(r) == seq![Seq::<u8>::empty() + pre] + split_acc(
        joined(names),
        Seq::<u8>::empty(),
    ));
    if names.len() == 0 {
        assert(joined(names) == Seq::<u8>::empty());
        assert(split_acc(Seq::<u8>::empty(), Seq::<u8>::empty()) == seq![Seq::<u8>::empty()]);
        assert forall|i: int| 0 <= i < segments_of(r).len() implies !is_up(
            #[trigger] segments_of(r)[i],
        ) by {
            if i == 0 {
                assert(segments_of(r)[i] == Seq::<u8>::empty() + pre);
                assert(Seq::<u8>::empty() + pre =~= pre);
                assert(pre[1] == COLON && COLON != DOT);
            } else {
                assert(segments_of(r)[i].len() == 0);
            }
        }
    } else {
        lemma_split_joined(names);
        assert forall|i: int| 0 <= i < segments_of(r).len() implies !is_up(
            #[trigger] segments_of(r)[i],
        ) by {
            if i == 0 {
                assert(segments_of(r)[i] == Seq::<u8>::empty() + pre);
                assert(Seq::<u8>::empty() + pre =~= pre);
                assert(pre[1] == COLON && COLON != DOT);
            } else {
                assert(segments_of(r)[i] == names[i - 1]);
            }
        }
    }
}

/// A rendered relative path, with or without the leading `.` marker, holds
/// no parent reference.
proof fn lemma_rel_render_no_up(names: Seq<Seq<u8>>, dotted: bool)
    requires
        names.len() >= 1,
        forall|k: int| 0 <= k < names.len() ==> plain_name(#[trigger] names[k]),
    ensures
        dotted ==> !has_up(segments_of(seq![DOT, SEP] + joined(names))),
        !dotted ==> !has_up(segments_of(joined(names))),
{
    lemma_split_joined(names);
    if dotted {
        let r = seq![DOT, SEP] + joined(names);
        assert(r[0] == DOT && DOT != SEP);
        assert(r.skip(1) =~= seq![SEP] + joined(names));
        assert(r.skip(1)[0] == SEP);
        assert(r.skip(1).skip(1) =~= joined(names));
        assert(Seq::<u8>::empty().push(DOT) =~= seq![DOT]);
        assert(split_acc(r, Seq::<u8>::empty()) == split_acc(r.skip(1), Seq::<u8>::empty().push(
            DOT,
        )));
        assert(split_acc(r.skip(1), Seq::<u8>::empty().push(DOT)) == seq![
            Seq::<u8>::empty().push(DOT),
        ] + split_acc(r.skip(1).skip(1), Seq::<u8>::empty()));
        assert(seq![Seq::<u8>::empty().push(DOT)] =~= seq![seq![DOT]]);
        assert(segments_of(r) == seq![seq![DOT]] + split_acc(joined(names), Seq::<u8>::empty()));
        assert forall|i: int| 0 <= i < segments_of(r).len() implies !is_up(
            #[trigger] segments_of(r)[i],
        ) by {
            if i == 0 {
                assert(segments_of(r)[i] == seq![DOT]);
                assert(seq![DOT].len() == 1);
            } else {
                assert(segments_of(r)[i] == names[i - 1]);
            }
        }
    } else {
        assert forall|i: int| 0 <= i < segments_of(joined(names)).len() implies !is_up(
            #[trigger] segments_of(joined(names))[i],
        ) by {
            assert(segments_of(joined(names))[i] == names[i]);
        }
    }
}

/// The lone `.` marker holds no parent reference.
proof fn lemma_dot_render_no_up()
    ensures
        !has_up(segments_of(seq![DOT])),
{
    let r = seq![DOT];
    assert(r[0] == DOT && DOT != SEP);
    assert(r.skip(1) =~= Seq::<u8>::empty());
    assert(Seq::<u8>::empty().push(DOT) =~= seq![DOT]);
    assert(split_acc(r, Seq::<u8>::empty()) == split_acc(r.skip(1), Seq::<u8>::empty().push(DOT)));
    assert(split_acc(Seq::<u8>::empty(), Seq::<u8>::empty().push(DOT)) == seq![
        Seq::<u8>::empty().push(DOT),
    ]);
    assert(seq![Seq::<u8>::empty().push(DOT)] =~= seq![seq![DOT]]);
    assert(segments_of(r) == seq![seq![DOT]]);
    assert forall|i: int| 0 <= i < segments_of(r).len() implies !is_up(
        #[trigger] segments_of(r)[i],
    ) by {
        assert(segments_of(r)[i] == seq![DOT]);
        assert(seq![DOT].len() == 1);
    }
}

/// Law: normalization is idempotent. Every successful result re-normalizes
/// to itself, under any reference directory: an unchanged result held no
/// parent reference to begin with, and a rewritten result never holds one
/// again.
pub proof fn lemma_normalize_idempotent(p: Seq<u8>, d: Seq<u8>, d2: Seq<u8>)
    ensures
        norm_spec(p, d) matches Some(r) ==> norm_spec(r, d2) == Some(r),
{
    let segs = segments_of(p);
    if has_up(segs) {
        let up = unmatched_ups(p);
        let stack = surviving(p);
        let body = body_of(segs);
        lemma_split_sep_free(p, Seq::<u8>::empty());
        assert forall|k: int| 0 <= k < body.len() implies sep_free(#[trigger] body[k]) by {
            if anchor_of(segs) is Rel {
                assert(body[k] == segs[k]);
            } else {
                assert(body[k] == segs[k + 1]);
            }
        }
        lemma_comps_names_plain(body);
        lemma_scan_names_plain(comps_of(body));
        match anchor_of(segs) {
            Anchor::Root => {
                if up == 0 {
                    lemma_abs_render_no_up(stack);
                }
            },
            Anchor::Drive(pre) => {
                if up == 0 {
                    lemma_drive_render_no_up(pre, stack);
                }
            },
            Anchor::Rel => {
                let dn = ref_names(d);
                if up > dn.len() {
                } else if up > 0 {
                    let dsegs = segments_of(d);
                    let dbody = body_of(dsegs);
                    lemma_split_sep_free(d, Seq::<u8>::empty());
                    assert forall|k: int| 0 <= k < dbody.len() implies sep_free(
                        #[trigger] dbody[k],
                    ) by {
                        if anchor_of(dsegs) is Rel {
                            assert(dbody[k] == dsegs[k]);
                        } else {
                            assert(dbody[k] == dsegs[k + 1]);
                        }
                    }
                    lemma_name_segs_plain(dbody);
                    let kept = dn.take(dn.len() - up);
                    assert forall|k: int| 0 <= k < (kept + stack).len() implies plain_name(
                        #[trigger] (kept + stack)[k],
                    ) by {
                        if k < kept.len() {
                            assert((kept + stack)[k] == dn[k]);
                        } else {
                            assert((kept + stack)[k] == stack[k - kept.len()]);
                        }
                    }
                    lemma_abs_render_no_up(kept + stack);
                } else if stack.len() == 0 {
                    lemma_dot_render_no_up();
                } else if has_dot_prefix(segs) {
                    lemma_rel_render_no_up(stack, true);
                } else {
                    lemma_rel_render_no_up(stack, false);
                }
            },
        }
    }
}

} // verus!
