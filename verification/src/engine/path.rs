//! Paths as text, with `/` as the separator: joining, absolute and relative
//! paths, and the components of a path.
use vstd::prelude::*;

use crate::text::{chars_of, push_char, push_chars, string_of};

verus! {

/// Whether `p` is an absolute path (it starts at the root).
pub open spec fn is_absolute(p: Seq<char>) -> bool {
    p.len() > 0 && p[0] == '/'
}

/// `seg` pushed onto `base`: an absolute `seg` replaces `base`; otherwise a
/// separator goes between them unless `base` is empty or already ends with
/// one.
pub open spec fn spec_join(base: Seq<char>, seg: Seq<char>) -> Seq<char> {
    if is_absolute(seg) {
        seg
    } else if base.len() == 0 || base.last() == '/' {
        base + seg
    } else {
        base + seq!['/'] + seg
    }
}

/// Joins `seg` onto `base`.
pub fn join(base: &str, seg: &str) -> (r: String)
    ensures
        r@ == spec_join(base@, seg@),
{
    let b = chars_of(base);
    let s = chars_of(seg);
    if s.len() > 0 && s[0] == '/' {
        return string_of(s.as_slice());
    }
    let mut r = string_of(b.as_slice());
    if b.len() > 0 && b[b.len() - 1] != '/' {
        push_char(&mut r, '/');
    }
    push_chars(&mut r, s.as_slice());
    r
}

/// The text of each string in `v`.
pub open spec fn views(v: Seq<String>) -> Seq<Seq<char>> {
    v.map_values(|s: String| s@)
}

/// A finished segment joins the components unless it is empty or `.`.
pub open spec fn flush_segment(done: Seq<Seq<char>>, cur: Seq<char>) -> Seq<Seq<char>> {
    if cur.len() == 0 || cur == seq!['.'] {
        done
    } else {
        done.push(cur)
    }
}

/// Scans `s` left to right: the components finished so far, and the segment
/// being read.
pub open spec fn segment_scan(s: Seq<char>) -> (Seq<Seq<char>>, Seq<char>)
    decreases s.len(),
{
    if s.len() == 0 {
        (Seq::empty(), Seq::empty())
    } else {
        let (done, cur) = segment_scan(s.drop_last());
        if s.last() == '/' {
            (flush_segment(done, cur), Seq::empty())
        } else {
            (done, cur.push(s.last()))
        }
    }
}

/// The segments of `s` between separators, leaving out empty and `.`
/// segments.
pub open spec fn segments(s: Seq<char>) -> Seq<Seq<char>> {
    flush_segment(segment_scan(s).0, segment_scan(s).1)
}

/// The components of a path: the root `/` for an absolute path, `.` for a
/// relative path that starts with `./` (or is `.`), then its segments.
pub open spec fn components(p: Seq<char>) -> Seq<Seq<char>> {
    if is_absolute(p) {
        seq![seq!['/']] + segments(p.drop_first())
    } else if p.len() > 0 && p[0] == '.' && (p.len() == 1 || p[1] == '/') {
        seq![seq!['.']] + segments(p.drop_first())
    } else {
        segments(p)
    }
}

/// The segments of `chars`, computed left to right.
fn segments_of(chars: &[char]) -> (r: Vec<String>)
    ensures
        views(r@) == segments(chars@),
{
    let mut done: Vec<String> = Vec::new();
    let mut cur: Vec<char> = Vec::new();
    let mut i: usize = 0;
    while i < chars.len()
        invariant
            i <= chars@.len(),
            views(done@) == segment_scan(chars@.take(i as int)).0,
            cur@ == segment_scan(chars@.take(i as int)).1,
        decreases chars@.len() - i,
    {
        assert(chars@.take(i + 1).drop_last() =~= chars@.take(i as int));
        let c = chars[i];
        if c == '/' {
            let is_dot = cur.len() == 1 && cur[0] == '.';
            if cur.len() > 0 && !is_dot {
                let ghost before = done@;
                done.push(string_of(cur.as_slice()));
                assert(views(done@) =~= views(before).push(
                    cur@,
                ));
            } else {
                assert(cur@.len() == 0 || cur@ =~= seq!['.']);
            }
            proof {
                if cur@ == seq!['.'] {
                    assert(cur@.len() == 1 && cur@[0] == '.');
                }
            }
            cur = Vec::new();
        } else {
            cur.push(c);
        }
        i = i + 1;
    }
    assert(chars@.take(i as int) =~= chars@);
    let is_dot = cur.len() == 1 && cur[0] == '.';
    if cur.len() > 0 && !is_dot {
        let ghost before = done@;
        done.push(string_of(cur.as_slice()));
        assert(views(done@) =~= views(before).push(cur@));
    } else {
        assert(cur@.len() == 0 || cur@ =~= seq!['.']);
    }
    proof {
        if cur@ == seq!['.'] {
            assert(cur@.len() == 1 && cur@[0] == '.');
        }
    }
    done
}

/// The components of path `p`.
pub fn path_components(p: &str) -> (r: Vec<String>)
    ensures
        views(r@) == components(p@),
{
    let chars = chars_of(p);
    if chars.len() > 0 && (chars[0] == '/' || (chars[0] == '.' && (chars.len() == 1 || chars[1]
        == '/'))) {
        let first = if chars[0] == '/' {
            "/".to_owned()
        } else {
            ".".to_owned()
        };
        proof {
            reveal_strlit("/");
            reveal_strlit(".");
        }
        let rest = chars_of(p);
        let mut tail: Vec<char> = Vec::new();
        let mut i: usize = 1;
        while i < rest.len()
            invariant
                1 <= i <= rest@.len(),
                rest@ == p@,
                tail@ == rest@.subrange(1, i as int),
            decreases rest@.len() - i,
        {
            tail.push(rest[i]);
            i = i + 1;
            assert(tail@ =~= rest@.subrange(1, i as int));
        }
        assert(tail@ =~= p@.drop_first());
        let segs = segments_of(tail.as_slice());
        let mut r: Vec<String> = Vec::new();
        r.push(first);
        let mut j: usize = 0;
        while j < segs.len()
            invariant
                j <= segs@.len(),
                r@.len() == j + 1,
                r@[0]@ == (if p@[0] == '/' { seq!['/'] } else { seq!['.'] }),
                forall|t: int| 0 <= t < j ==> #[trigger] r@[t + 1]@ == segs@[t]@,
            decreases segs@.len() - j,
        {
            r.push(segs[j].clone());
            j = j + 1;
        }
        let ghost want = components(p@);
        assert(views(r@) =~= want) by {
            assert(views(segs@) == segments(p@.drop_first()));
            assert forall|t: int| 0 <= t < r@.len() implies #[trigger] views(r@)[t] == want[t] by {
                if t > 0 {
                    assert(r@[(t - 1) + 1]@ == segs@[t - 1]@);
                    assert(views(segs@)[t - 1] == segs@[t - 1]@);
                }
            }
        }
        r
    } else {
        segments_of(chars.as_slice())
    }
}

/// The components `cs` collected into a path, each pushed onto the path
/// built so far.
pub open spec fn join_all(cs: Seq<Seq<char>>) -> Seq<char>
    decreases cs.len(),
{
    if cs.len() == 0 {
        Seq::empty()
    } else {
        spec_join(join_all(cs.drop_last()), cs.last())
    }
}

/// Whether the components of `base` begin the components of `p`.
pub open spec fn has_base(p: Seq<char>, base: Seq<char>) -> bool {
    components(base).len() <= components(p).len() && components(p).take(
        components(base).len() as int,
    ) == components(base)
}

/// `p` relative to `base`, when the components of `base` begin those of
/// `p`: the remaining components, collected into a path.
pub open spec fn strip_base(p: Seq<char>, base: Seq<char>) -> Option<Seq<char>> {
    if has_base(p, base) {
        Some(join_all(components(p).skip(components(base).len() as int)))
    } else {
        None
    }
}

/// What `path_clean::clean` makes of the path `p`.
pub uninterp spec fn path_clean(p: Seq<char>) -> Seq<char>;

/// Calls `path_clean::clean`, which cleans a path lexically (repeated
/// separators, `.` and `..` components); the result is named
/// [`path_clean`].
#[verifier::external_body]
pub(crate) fn clean_path(p: &str) -> (r: String)
    ensures
        r@ == path_clean(p@),
{
    path_clean::clean(p).to_string_lossy().into_owned()
}

/// Collects `cs` into a path.
pub fn join_components(cs: &[String]) -> (r: String)
    ensures
        r@ == join_all(views(cs@)),
{
    let mut r = String::new();
    let mut i: usize = 0;
    while i < cs.len()
        invariant
            i <= cs@.len(),
            r@ == join_all(views(cs@).take(i as int)),
        decreases cs@.len() - i,
    {
        assert(views(cs@).take(i + 1).drop_last() =~= views(cs@).take(i as int));
        r = join(r.as_str(), cs[i].as_str());
        i = i + 1;
    }
    assert(views(cs@).take(i as int) =~= views(cs@));
    r
}

/// `p` relative to `base`, comparing components.
pub fn strip_prefix(p: &str, base: &str) -> (r: Option<String>)
    ensures
        match r {
            Some(t) => strip_base(p@, base@) == Some(t@),
            None => strip_base(p@, base@) is None,
        },
{
    let pc = path_components(p);
    let bc = path_components(base);
    if bc.len() > pc.len() {
        return None;
    }
    let mut i: usize = 0;
    while i < bc.len()
        invariant
            i <= bc@.len(),
            bc@.len() <= pc@.len(),
            views(pc@) == components(p@),
            views(bc@) == components(base@),
            forall|t: int| 0 <= t < i ==> pc@[t]@ == bc@[t]@,
        decreases bc@.len() - i,
    {
        if pc[i] != bc[i] {
            assert(views(pc@)[i as int] == pc@[i as int]@);
            assert(views(bc@)[i as int] == bc@[i as int]@);
            assert(views(pc@).take(bc@.len() as int)[i as int] != views(bc@)[i as int]);
            assert(!has_base(p@, base@)) by {
                if has_base(p@, base@) {
                    assert(components(p@).take(components(base@).len() as int)[i as int]
                        == components(base@)[i as int]);
                }
            }
            return None;
        }
        i = i + 1;
    }
    assert(views(pc@).take(bc@.len() as int) =~= views(bc@));
    let mut rest: Vec<String> = Vec::new();
    let mut j: usize = bc.len();
    while j < pc.len()
        invariant
            bc@.len() <= j <= pc@.len(),
            views(rest@) == views(pc@).subrange(bc@.len() as int, j as int),
        decreases pc@.len() - j,
    {
        let ghost prev = rest@;
        let c = pc[j].clone();
        assert(c@ == views(pc@)[j as int]);
        rest.push(c);
        assert(views(rest@) =~= views(prev).push(c@));
        j = j + 1;
        assert(views(rest@) =~= views(pc@).subrange(bc@.len() as int, j as int));
    }
    assert(views(pc@).subrange(bc@.len() as int, j as int) =~= views(pc@).skip(bc@.len() as int));
    Some(join_components(rest.as_slice()))
}

} // verus!
