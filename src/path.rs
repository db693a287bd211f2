//! Path algebra on plain strings: absolute paths, joining, parents and
//! the payload location of a host file.
use vstd::prelude::*;
use vstd::string::*;
use crate::text::concat;

verus! {

pub open spec fn is_absolute(p: Seq<char>) -> bool {
    p.len() > 0 && p[0] == '/'
}

/// `PathBuf::push`: an absolute `name` replaces `dir`; otherwise a
/// separator is put between the two unless `dir` is empty or already
/// ends with one.
pub open spec fn path_join(dir: Seq<char>, name: Seq<char>) -> Seq<char> {
    if is_absolute(name) {
        name
    } else if dir.len() == 0 || dir.last() == '/' {
        dir + name
    } else {
        dir + seq!['/'] + name
    }
}

/// Index of the last `/` in `p`, or -1.
pub open spec fn last_slash(p: Seq<char>) -> int
    decreases p.len(),
{
    if p.len() == 0 {
        -1
    } else if p.last() == '/' {
        p.len() - 1
    } else {
        last_slash(p.drop_last())
    }
}

/// The directory that holds `p`: everything before its last separator,
/// `/` for a file at the root, and the empty path for a bare name.
pub open spec fn parent_dir(p: Seq<char>) -> Seq<char> {
    let k = last_slash(p);
    if k < 0 {
        Seq::empty()
    } else if k == 0 {
        seq!['/']
    } else {
        p.subrange(0, k)
    }
}

pub open spec fn payload_root() -> Seq<char> {
    seq!['p', 'a', 'y', 'l', 'o', 'a', 'd']
}

/// Where a host file lands in the bundle: `payload` followed by the
/// path's components after the root (`/usr/lib/x` becomes
/// `payload/usr/lib/x`).
pub open spec fn payload_destination(source: Seq<char>) -> Seq<char> {
    if is_absolute(source) {
        payload_root() + source
    } else {
        payload_root() + seq!['/'] + source
    }
}

pub proof fn lemma_last_slash_bounds(p: Seq<char>)
    ensures
        -1 <= last_slash(p) < p.len(),
        last_slash(p) >= 0 ==> p[last_slash(p)] == '/',
        forall|j: int| last_slash(p) < j < p.len() ==> p[j] != '/',
    decreases p.len(),
{
    if p.len() > 0 && p.last() != '/' {
        lemma_last_slash_bounds(p.drop_last());
        assert forall|j: int| last_slash(p) < j < p.len() implies p[j] != '/' by {
            if j < p.len() - 1 {
                assert(p[j] == p.drop_last()[j]);
            }
        }
    }
}

/// The last separator of a path lies at or after one that is known.
pub proof fn lemma_last_slash_at_least(p: Seq<char>, k: int)
    requires
        0 <= k < p.len(),
        p[k] == '/',
    ensures
        last_slash(p) >= k,
{
    lemma_last_slash_bounds(p);
}

/// A destination lies under `payload/`, and its parent begins with
/// `payload`.
pub proof fn lemma_destination_under_payload(source: Seq<char>)
    ensures
        has_payload_prefix(payload_destination(source)),
        parent_dir(payload_destination(source)).len() >= 7,
        parent_dir(payload_destination(source)).subrange(0, 7) == payload_root(),
{
    let d = payload_destination(source);
    assert(d[7] == '/');
    assert(d.subrange(0, 8) =~= payload_root().push('/'));
    lemma_last_slash_at_least(d, 7);
    lemma_last_slash_bounds(d);
    let k = last_slash(d);
    if k == 7 {
        assert(parent_dir(d) =~= payload_root());
    } else {
        assert(parent_dir(d).subrange(0, 7) =~= d.subrange(0, 7));
        assert(d.subrange(0, 7) =~= payload_root());
    }
}

/// The first eight characters are `payload/`.
pub open spec fn has_payload_prefix(p: Seq<char>) -> bool {
    p.len() >= 8 && p.subrange(0, 8) == payload_root().push('/')
}

pub fn is_absolute_str(p: &str) -> (r: bool)
    ensures
        r == is_absolute(p@),
{
    p.unicode_len() > 0 && p.get_char(0) == '/'
}

pub fn join_path(dir: &str, name: &str) -> (r: String)
    ensures
        r@ == path_join(dir@, name@),
{
    if is_absolute_str(name) {
        return name.to_owned();
    }
    let n = dir.unicode_len();
    if n == 0 || dir.get_char(n - 1) == '/' {
        concat(dir, name)
    } else {
        let sep = "/";
        proof {
            reveal_strlit("/");
        }
        let with_sep = concat(dir, sep);
        let r = concat(with_sep.as_str(), name);
        assert(r@ =~= dir@ + seq!['/'] + name@);
        r
    }
}

pub fn last_slash_index(p: &str) -> (r: Option<usize>)
    ensures
        match r {
            Some(k) => k as int == last_slash(p@),
            None => last_slash(p@) == -1,
        },
{
    let n = p.unicode_len();
    let mut j: usize = n;
    assert(p@.subrange(0, n as int) =~= p@);
    while j > 0
        invariant
            j <= n == p@.len(),
            last_slash(p@) == last_slash(p@.subrange(0, j as int)),
        decreases j,
    {
        let ghost pre = p@.subrange(0, j as int);
        assert(pre.drop_last() =~= p@.subrange(0, j - 1));
        if p.get_char(j - 1) == '/' {
            return Some(j - 1);
        }
        j -= 1;
    }
    None
}

pub fn parent_of(p: &str) -> (r: String)
    ensures
        r@ == parent_dir(p@),
{
    proof {
        lemma_last_slash_bounds(p@);
    }
    match last_slash_index(p) {
        None => String::new(),
        Some(k) => {
            if k == 0 {
                let root = "/";
                proof {
                    reveal_strlit("/");
                }
                let r = root.to_owned();
                assert(r@ =~= seq!['/']);
                r
            } else {
                crate::text::substring(p, 0, k)
            }
        },
    }
}

pub fn destination_for(source: &str) -> (r: String)
    ensures
        r@ == payload_destination(source@),
{
    let base = "payload";
    proof {
        reveal_strlit("payload");
        reveal_strlit("payload/");
    }
    assert(base@ =~= payload_root());
    if is_absolute_str(source) {
        concat(base, source)
    } else {
        let r = concat("payload/", source);
        assert(r@ =~= payload_root() + seq!['/'] + source@);
        r
    }
}

} // verus!
