//! What the commands of a shell need of paths: a path seen from a working
//! directory, and a path cut into the directory and the name.

use vstd::prelude::*;
use crate::fs::laws::lemma_last_slash_is_last;
use crate::fs::node::{find_last_slash, last_slash, spec_name, spec_parent};
use crate::fs::path::{dot, dotdot, FsError, lemma_seg_end, seg_end, SLASH, trim_slash};

verus! {

/// What is left of the segments `w`, joined by slashes, without the last
/// of them: `None` where it was the only one.
pub open spec fn spec_up(w: Seq<u8>) -> Option<Seq<u8>> {
    if last_slash(w) >= 0 {
        Some(w.take(last_slash(w)))
    } else {
        None
    }
}

/// Follows the segments `.` and `..` at the front of `rest` from the
/// segments `w`, both joined by slashes and `None` where no segment is
/// left: `.` is passed over, `..` takes the last segment of `w` away. Gives
/// what is left of both, or `None` where `..` finds no segment to take.
pub open spec fn spec_climb(w: Option<Seq<u8>>, rest: Option<Seq<u8>>) -> Option<
    (Option<Seq<u8>>, Option<Seq<u8>>),
>
    decreases
            (match rest {
                Some(r) => r.len() + 1,
                None => 0,
            }),
{
    match rest {
        None => Some((w, rest)),
        Some(r) => {
            let j = seg_end(r, 0);
            let next = if 0 <= j < r.len() {
                Some(r.skip(j + 1))
            } else {
                None
            };
            if r.take(j) == dot() {
                spec_climb(w, next)
            } else if r.take(j) == dotdot() {
                match w {
                    None => None,
                    Some(s) => spec_climb(spec_up(s), next),
                }
            } else {
                Some((w, rest))
            }
        },
    }
}

/// The segments `w` of a directory and the path `rest` behind them, as
/// one absolute path.
pub open spec fn spec_glue(w: Option<Seq<u8>>, rest: Option<Seq<u8>>) -> Seq<u8> {
    let a = seq![SLASH] + match w {
        Some(s) => s,
        None => Seq::empty(),
    };
    let b = match rest {
        Some(r) => r,
        None => Seq::empty(),
    };
    if b.len() == 0 {
        a
    } else if a.last() == SLASH {
        a + b
    } else {
        a + seq![SLASH] + b
    }
}

/// The segments of the working directory `wd` behind its first, joined by
/// slashes; one slash at the end of `wd` does not count.
pub open spec fn spec_wd_segments(wd: Seq<u8>) -> Option<Seq<u8>> {
    let base = trim_slash(wd);
    let j = seg_end(base, 0);
    if 0 <= j < base.len() {
        Some(base.skip(j + 1))
    } else {
        None
    }
}

/// The path `path` as an absolute path, seen from the working directory
/// `wd`. A path that begins with a slash is absolute already. Of another
/// path the segments `.` and `..` at its front are followed from `wd`;
/// what is left of it is put behind what is left of `wd`. `None` where
/// `..` leads above the root.
pub open spec fn spec_abs(wd: Seq<u8>, path: Seq<u8>) -> Option<Seq<u8>> {
    if path.len() > 0 && path[0] == SLASH {
        Some(path)
    } else {
        match spec_climb(spec_wd_segments(wd), Some(path)) {
            None => None,
            Some((w, rest)) => Some(spec_glue(w, rest)),
        }
    }
}

/// The end of the segment of `s` that begins at `from`.
fn segment_end(s: &[u8], from: usize, to: usize) -> (j: usize)
    requires
        from <= to <= s@.len(),
    ensures
        from <= j <= to,
        seg_end(s@.subrange(from as int, to as int), 0) == j - from,
        forall|k: int| from <= k < j ==> s@[k] != SLASH,
        j < to ==> s@[j as int] == SLASH,
{
    let mut j: usize = from;
    while j < to && s[j] != SLASH
        invariant
            from <= j <= to <= s@.len(),
            forall|k: int| from <= k < j ==> s@[k] != SLASH,
        decreases to - j,
    {
        j += 1;
    }
    proof {
        lemma_seg_end(s@.subrange(from as int, to as int), 0, j - from);
    }
    j
}

/// Makes `path` absolute, seen from the working directory `wd`.
pub fn convert_path_to_abs(wd: &[u8], path: &[u8]) -> (r: Result<Vec<u8>, FsError>)
    ensures
        r is Ok <==> spec_abs(wd@, path@) is Some,
        r is Ok ==> r->Ok_0@ == spec_abs(wd@, path@)->Some_0,
        r is Err ==> r->Err_0 == FsError::InvalidPath,
{
    if path.len() > 0 && path[0] == SLASH {
        return Ok(vstd::slice::slice_to_vec(path));
    }
    let wend: usize = if wd.len() > 0 && wd[wd.len() - 1] == SLASH {
        wd.len() - 1
    } else {
        wd.len()
    };
    assert(wd@.subrange(0, wend as int) =~= trim_slash(wd@));
    let ws = segment_end(wd, 0, wend);
    let mut w_some: bool = ws < wend;
    let wfrom: usize = if w_some {
        ws + 1
    } else {
        wend
    };
    let mut wto: usize = wend;
    assert(w_some ==> wd@.subrange(wfrom as int, wto as int) =~= trim_slash(wd@).skip(ws + 1));
    let mut r_some: bool = true;
    let mut rfrom: usize = 0;
    let mut go: bool = true;
    let plen: usize = path.len();
    assert(path@.subrange(0, plen as int) =~= path@);
    let ghost start = spec_climb(spec_wd_segments(wd@), Some(path@));
    while go && r_some
        invariant
            plen == path@.len(),
            !(path@.len() > 0 && path@[0] == SLASH),
            start == spec_climb(spec_wd_segments(wd@), Some(path@)),
            rfrom <= plen,
            wfrom <= wto <= wd@.len(),
            start == spec_climb(
                if w_some {
                    Some(wd@.subrange(wfrom as int, wto as int))
                } else {
                    None
                },
                if r_some {
                    Some(path@.subrange(rfrom as int, plen as int))
                } else {
                    None
                },
            ),
            !go && r_some ==> {
                let r = path@.subrange(rfrom as int, plen as int);
                r.take(seg_end(r, 0)) != dot() && r.take(seg_end(r, 0)) != dotdot()
            },
        decreases
                (if go && r_some {
                    plen - rfrom + 1
                } else {
                    0
                }),
    {
        let ghost r = path@.subrange(rfrom as int, plen as int);
        let ghost w = wd@.subrange(wfrom as int, wto as int);
        let j = segment_end(path, rfrom, plen);
        let ghost seg = r.take(j - rfrom);
        assert(seg.len() == j - rfrom);
        let is_dot: bool = j - rfrom == 1 && path[rfrom] == 46;
        let is_dotdot: bool = j - rfrom == 2 && path[rfrom] == 46 && path[rfrom + 1] == 46;
        proof {
            if is_dot {
                assert(seg =~= dot());
            } else if seg == dot() {
                assert(seg[0] == 46);
            }
            if is_dotdot {
                assert(seg =~= dotdot());
            } else if seg == dotdot() {
                assert(seg[0] == 46 && seg[1] == 46);
            }
            if j < plen {
                assert(r.skip(j - rfrom + 1) =~= path@.subrange(j + 1, plen as int));
            }
        }
        if !is_dot && !is_dotdot {
            go = false;
        } else {
            if is_dotdot {
                if !w_some {
                    proof {
                        assert(dot() != dotdot()) by {
                            assert(dot().len() != dotdot().len());
                        }
                        assert(spec_climb(None, Some(r)) is None);
                    }
                    return Err(FsError::InvalidPath);
                }
                let cut = find_last_slash(vstd::slice::slice_subrange(wd, wfrom, wto));
                match cut {
                    Some(k) => {
                        assert(w.take(k as int) =~= wd@.subrange(wfrom as int, wfrom + k));
                        wto = wfrom + k;
                    },
                    None => {
                        w_some = false;
                    },
                }
            }
            if j < plen {
                rfrom = j + 1;
            } else {
                r_some = false;
            }
        }
    }
    let mut out: Vec<u8> = Vec::new();
    out.push(SLASH);
    let ghost w = if w_some {
        Some(wd@.subrange(wfrom as int, wto as int))
    } else {
        None
    };
    let ghost rest = if r_some {
        Some(path@.subrange(rfrom as int, plen as int))
    } else {
        None
    };
    assert(start == Some((w, rest)));
    let mut slash_last: bool = true;
    if w_some && wfrom < wto {
        let mut part = vstd::slice::slice_to_vec(vstd::slice::slice_subrange(wd, wfrom, wto));
        slash_last = wd[wto - 1] == SLASH;
        out.append(&mut part);
    }
    let ghost a = seq![SLASH] + match w {
        Some(s) => s,
        None => Seq::empty(),
    };
    assert(out@ =~= a);
    assert(slash_last == (a.last() == SLASH));
    if r_some && rfrom < plen {
        if !slash_last {
            out.push(SLASH);
        }
        let mut part = vstd::slice::slice_to_vec(vstd::slice::slice_subrange(path, rfrom, plen));
        out.append(&mut part);
    }
    assert(out@ =~= spec_glue(w, rest));
    Ok(out)
}

/// The directory and the name that the path `p` is cut into at its last
/// slash: `/` stays the directory where that is the first byte, and a
/// path without a slash is a name in `./`.
pub open spec fn spec_split_path(p: Seq<u8>) -> (Seq<u8>, Seq<u8>) {
    if last_slash(p) < 0 {
        (seq![46u8, SLASH], p)
    } else {
        (spec_parent(p), spec_name(p))
    }
}

/// Cuts `path` at its last slash into the directory's path and the name.
pub fn split_path(path: &[u8]) -> (r: (Vec<u8>, Vec<u8>))
    ensures
        r.0@ == spec_split_path(path@).0,
        r.1@ == spec_split_path(path@).1,
{
    let plen: usize = path.len();
    let cut = find_last_slash(path);
    match cut {
        Some(k) => {
            proof {
                lemma_last_slash_is_last(path@);
            }
            let parent = if k == 0 {
                vstd::slice::slice_subrange(path, 0, 1)
            } else {
                vstd::slice::slice_subrange(path, 0, k)
            };
            assert(parent@ =~= spec_parent(path@));
            let name = vstd::slice::slice_subrange(path, k + 1, plen);
            assert(name@ =~= spec_name(path@));
            (vstd::slice::slice_to_vec(parent), vstd::slice::slice_to_vec(name))
        },
        None => {
            let mut here: Vec<u8> = Vec::new();
            here.push(46u8);
            here.push(SLASH);
            assert(here@ =~= seq![46u8, SLASH]);
            (here, vstd::slice::slice_to_vec(path))
        },
    }
}

} // verus!
