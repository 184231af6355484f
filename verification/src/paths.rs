//! Keep declared files within the project root. Whether a location holds a
//! symbolic link is asked of the filesystem by the caller.
use vstd::prelude::*;
use crate::text::{chars_of, join2};

verus! {

/// The end of the path segment that starts at `i`: the next `/`, or the end.
pub open spec fn segment_end(p: Seq<char>, i: int) -> int
    decreases p.len() - i,
{
    if i < 0 || i >= p.len() {
        p.len() as int
    } else if p[i] == '/' {
        i
    } else {
        segment_end(p, i + 1)
    }
}

pub proof fn lemma_segment_end(p: Seq<char>, i: int)
    requires
        0 <= i <= p.len(),
    ensures
        i <= segment_end(p, i) <= p.len(),
        segment_end(p, i) < p.len() ==> p[segment_end(p, i)] == '/',
        forall|k: int| i <= k < segment_end(p, i) ==> p[k] != '/',
    decreases p.len() - i,
{
    if i < p.len() && p[i] != '/' {
        lemma_segment_end(p, i + 1);
    }
}

/// Some segment of `p`, from position `i` on, is `..`.
pub open spec fn climbs_from(p: Seq<char>, i: int) -> bool
    decreases p.len() + 1 - i,
{
    if i < 0 || i > p.len() {
        false
    } else {
        let e = segment_end(p, i);
        proof {
            lemma_segment_end(p, i);
        }
        p.subrange(i, e) == ".."@ || climbs_from(p, e + 1)
    }
}

/// `acc` followed by `/segment` for each segment of `p` from position `i` on
/// that is neither empty nor `.`.
pub open spec fn joined_from(p: Seq<char>, i: int, acc: Seq<char>) -> Seq<char>
    decreases p.len() + 1 - i,
{
    if i < 0 || i > p.len() {
        acc
    } else {
        let e = segment_end(p, i);
        proof {
            lemma_segment_end(p, i);
        }
        let segment = p.subrange(i, e);
        let next = if segment.len() == 0 || segment == "."@ {
            acc
        } else {
            acc + "/"@ + segment
        };
        joined_from(p, e + 1, next)
    }
}

/// `path` is relative and has no `..` segment, so it cannot leave the directory it is read from.
pub open spec fn confined(path: Seq<char>) -> bool {
    !(path.len() > 0 && path[0] == '/') && !climbs_from(path, 0)
}

/// The location of `path` under `root` when it is confined, or the error.
pub open spec fn inside_result(root: Seq<char>, path: Seq<char>) -> Result<Seq<char>, Seq<char>> {
    if confined(path) {
        Ok(joined_from(path, 0, root))
    } else {
        Err("Path must be relative and cannot contain parent traversal"@)
    }
}

/// The first index of `/` within `cs[a..]`, or the end.
fn next_slash(cs: &Vec<char>, a: usize) -> (r: usize)
    requires
        a <= cs@.len(),
    ensures
        r == segment_end(cs@, a as int),
{
    proof {
        lemma_segment_end(cs@, a as int);
    }
    let mut i = a;
    while i < cs.len() && cs[i] != '/'
        invariant
            a <= i <= cs@.len(),
            segment_end(cs@, a as int) == segment_end(cs@, i as int),
        decreases cs@.len() - i,
    {
        i = i + 1;
    }
    i
}

/// Places the relative `path` under `root`, refusing absolute paths and
/// parent traversal. Empty and `.` segments are dropped: they name the same place.
pub fn inside(root: &str, path: &str) -> (r: Result<String, String>)
    ensures
        match inside_result(root@, path@) {
            Ok(p) => r matches Ok(s) && s@ == p,
            Err(e) => r matches Err(m) && m@ == e,
        },
{
    let cs = chars_of(path);
    let n = cs.len();
    if n > 0 && cs[0] == '/' {
        return Err(String::from_str("Path must be relative and cannot contain parent traversal"));
    }
    let mut joined = String::from_str(root);
    let mut start: usize = 0;
    let ghost p = path@;
    while start < n
        invariant
            cs@ == p,
            p == path@,
            n == p.len(),
            start <= n,
            !(p.len() > 0 && p[0] == '/'),
            climbs_from(p, 0) == climbs_from(p, start as int),
            joined_from(p, 0, root@) == joined_from(p, start as int, joined@),
        decreases n - start,
    {
        let end = next_slash(&cs, start);
        proof {
            lemma_segment_end(p, start as int);
        }
        let ghost before = joined@;
        let segment = path.substring_char(start, end);
        let len = end - start;
        if len == 2 && cs[start] == '.' && cs[start + 1] == '.' {
            assert(p.subrange(start as int, end as int) =~= ".."@) by {
                reveal_strlit("..");
            }
            assert(climbs_from(p, start as int));
            return Err(String::from_str("Path must be relative and cannot contain parent traversal"));
        }
        proof {
            reveal_strlit("..");
            reveal_strlit(".");
            if len == 2 {
                assert(p.subrange(start as int, end as int) != ".."@) by {
                    if p.subrange(start as int, end as int) == ".."@ {
                        assert(p.subrange(start as int, end as int)[0] == '.');
                        assert(p.subrange(start as int, end as int)[1] == '.');
                    }
                }
            }
        }
        if !(len == 0 || (len == 1 && cs[start] == '.')) {
            proof {
                if len == 1 {
                    assert(p.subrange(start as int, end as int) != "."@) by {
                        if p.subrange(start as int, end as int) == "."@ {
                            assert(p.subrange(start as int, end as int)[0] == '.');
                        }
                    }
                }
            }
            let with_slash = join2(joined.as_str(), "/");
            joined = join2(with_slash.as_str(), segment);
            proof {
                assert(joined@ =~= with_slash@ + segment@);
            }
        } else {
            proof {
                if len == 1 {
                    assert(p.subrange(start as int, end as int) =~= "."@);
                }
            }
        }
        proof {
            assert(joined_from(p, start as int, before) == joined_from(p, end + 1, joined@));
            assert(climbs_from(p, start as int) == climbs_from(p, end + 1));
        }
        if end == n {
            proof {
                assert(climbs_from(p, n + 1) == false);
                assert(joined_from(p, n + 1, joined@) == joined@);
            }
            return Ok(joined);
        }
        start = end + 1;
    }
    proof {
        lemma_segment_end(p, n as int);
        assert(p.subrange(n as int, n as int) =~= Seq::<char>::empty());
        reveal_strlit("..");
        assert(climbs_from(p, n as int) == climbs_from(p, n + 1));
        assert(joined_from(p, n as int, joined@) == joined_from(p, n + 1, joined@));
    }
    Ok(joined)
}

} // verus!
