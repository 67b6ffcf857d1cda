//! A byte-level model of slash-separated paths: joining, extension
//! substitution and prefix stripping, as the batch pipeline derives output
//! paths from input paths.

use vstd::prelude::*;

verus! {

/// A path is relative when it does not start with a separator.
pub open spec fn is_relative_path(p: Seq<u8>) -> bool {
    !(p.len() > 0 && p[0] == 47)
}

/// Joining two paths: an absolute right side stands alone; otherwise the
/// sides are joined with a single separator between them.
pub open spec fn path_join(a: Seq<u8>, b: Seq<u8>) -> Seq<u8> {
    if !is_relative_path(b) {
        b
    } else if a.len() == 0 {
        b
    } else if a.last() == 47 {
        a + b
    } else {
        a + seq![47u8] + b
    }
}

/// The index where the final path component starts: just after the last
/// separator, or zero if there is none.
pub open spec fn file_name_start(p: Seq<u8>) -> int
    decreases p.len(),
{
    if p.len() == 0 {
        0int
    } else if p.last() == 47 {
        p.len() as int
    } else {
        file_name_start(p.drop_last())
    }
}

/// The length of the stem of a file name: everything before the last dot,
/// except that a dot in the first position does not begin an extension.
pub open spec fn stem_len(c: Seq<u8>) -> int
    decreases c.len(),
{
    if c.len() <= 1 {
        c.len() as int
    } else if c.last() == 46 {
        c.len() - 1
    } else {
        let r = stem_len(c.drop_last());
        if r == c.len() - 1 {
            c.len() as int
        } else {
            r
        }
    }
}

/// Replacing the extension of the final component with `ext`: a path with
/// no final component (empty, or ending in a separator or a dot-only
/// component) is unchanged.
pub open spec fn with_extension(p: Seq<u8>, ext: Seq<u8>) -> Seq<u8> {
    let start = file_name_start(p);
    let name = p.skip(start);
    if name.len() == 0 || name == seq![46u8] || name == seq![46u8, 46u8] {
        p
    } else {
        p.take(start) + name.take(stem_len(name)) + seq![46u8] + ext
    }
}

/// Stripping a base path from the front of `p`: the remainder after the
/// base and its separator, the empty path if they are equal, and nothing
/// if the base is not a component prefix of `p`.
pub open spec fn strip_prefix(p: Seq<u8>, base: Seq<u8>) -> Option<Seq<u8>> {
    if p == base {
        Some(Seq::<u8>::empty())
    } else if base.len() > 0 && base.last() == 47 && base.len() <= p.len() && p.take(
        base.len() as int,
    ) == base {
        Some(p.skip(base.len() as int))
    } else if base.len() + 1 <= p.len() && p.take(base.len() as int + 1) == base + seq![47u8] {
        Some(p.skip(base.len() as int + 1))
    } else {
        None
    }
}

/// Copies the bytes of `src` from `from` (inclusive) to `to` (exclusive).
pub fn copy_range(src: &Vec<u8>, from: usize, to: usize) -> (r: Vec<u8>)
    requires
        from <= to <= src@.len(),
    ensures
        r@ == src@.subrange(from as int, to as int),
{
    let mut r: Vec<u8> = Vec::new();
    let mut k: usize = from;
    while k < to
        invariant
            from <= k <= to <= src@.len(),
            r@ == src@.subrange(from as int, k as int),
        decreases to - k,
    {
        proof {
            assert(src@.subrange(from as int, k as int).push(src@[k as int]) =~= src@.subrange(
                from as int,
                k + 1,
            ));
        }
        r.push(src[k]);
        k += 1;
    }
    r
}

/// Whether a byte path is relative.
pub fn is_relative(p: &Vec<u8>) -> (r: bool)
    ensures
        r == is_relative_path(p@),
{
    p.len() == 0 || p[0] != 47
}

/// Joins two byte paths with a separator.
pub fn join(a: &Vec<u8>, b: &Vec<u8>) -> (r: Vec<u8>)
    ensures
        r@ == path_join(a@, b@),
{
    if b.len() > 0 && b[0] == 47 {
        return copy_range(b, 0, b.len());
    }
    if a.len() == 0 {
        return copy_range(b, 0, b.len());
    }
    let mut r = copy_range(a, 0, a.len());
    if a[a.len() - 1] != 47 {
        r.push(47);
    }
    let mut k: usize = 0;
    let ghost head = r@;
    while k < b.len()
        invariant
            k <= b@.len(),
            r@ == head + b@.take(k as int),
        decreases b.len() - k,
    {
        proof {
            assert((head + b@.take(k as int)).push(b@[k as int]) =~= head + b@.take(k + 1));
        }
        r.push(b[k]);
        k += 1;
    }
    proof {
        assert(b@.take(b@.len() as int) =~= b@);
        assert(a@.subrange(0, a@.len() as int) =~= a@);
        if a@.last() == 47 {
            assert(r@ =~= path_join(a@, b@));
        } else {
            assert(head =~= a@ + seq![47u8]);
            assert(r@ =~= path_join(a@, b@));
        }
    }
    r
}

/// Finds where the final path component starts.
pub fn find_file_name_start(p: &Vec<u8>) -> (r: usize)
    ensures
        r == file_name_start(p@),
        r <= p@.len(),
{
    let mut j: usize = p.len();
    proof {
        assert(p@.take(p@.len() as int) =~= p@);
    }
    while j > 0
        invariant
            j <= p@.len(),
            file_name_start(p@) == file_name_start(p@.take(j as int)),
            forall|d: int| j <= d < p@.len() ==> p@[d] != 47,
        decreases j,
    {
        if p[j - 1] == 47 {
            proof {
                assert(p@.take(j as int).last() == 47);
            }
            return j;
        }
        proof {
            assert(p@.take(j as int).drop_last() =~= p@.take(j - 1));
        }
        j -= 1;
    }
    proof {
        assert(p@.take(0) =~= Seq::<u8>::empty());
    }
    0
}

/// Finds the stem length of a file name.
pub fn find_stem_len(c: &Vec<u8>) -> (r: usize)
    ensures
        r == stem_len(c@),
{
    let mut j: usize = c.len();
    while j > 1
        invariant
            j <= c@.len(),
            c@.len() > 1 ==> j >= 1,
            forall|d: int| j <= d < c@.len() ==> c@[d] != 46,
        decreases j,
    {
        if c[j - 1] == 46 {
            proof {
                lemma_stem_at(c@, j - 1);
            }
            return j - 1;
        }
        j -= 1;
    }
    proof {
        lemma_stem_none(c@);
    }
    c.len()
}

/// A dot at position `d >= 1`, with no later dot, ends the stem at `d`.
proof fn lemma_stem_at(c: Seq<u8>, d: int)
    requires
        1 <= d < c.len(),
        c[d] == 46,
        forall|e: int| d < e < c.len() ==> c[e] != 46,
    ensures
        stem_len(c) == d,
    decreases c.len(),
{
    if d == c.len() - 1 {
    } else {
        lemma_stem_at(c.drop_last(), d);
        assert(stem_len(c.drop_last()) == d);
    }
}

/// With no dot after the first position, the stem is the whole name.
proof fn lemma_stem_none(c: Seq<u8>)
    requires
        forall|e: int| 1 <= e < c.len() ==> c[e] != 46,
    ensures
        stem_len(c) == c.len(),
    decreases c.len(),
{
    if c.len() > 1 {
        lemma_stem_none(c.drop_last());
    }
}

/// Replaces the extension of the final component of a byte path.
pub fn set_extension(p: &Vec<u8>, ext: &Vec<u8>) -> (r: Vec<u8>)
    ensures
        r@ == with_extension(p@, ext@),
{
    let start = find_file_name_start(p);
    let name = copy_range(p, start, p.len());
    proof {
        assert(name@ =~= p@.skip(start as int));
    }
    if name.len() == 0 || (name.len() == 1 && name[0] == 46) || (name.len() == 2 && name[0] == 46
        && name[1] == 46) {
        proof {
            if name@.len() == 1 && name@[0] == 46 {
                assert(name@ =~= seq![46u8]);
            }
            if name@.len() == 2 && name@[0] == 46 && name@[1] == 46 {
                assert(name@ =~= seq![46u8, 46u8]);
            }
        }
        return copy_range(p, 0, p.len());
    }
    proof {
        assert(name@ != seq![46u8] && name@ != seq![46u8, 46u8]) by {
            if name@.len() == 1 {
                assert(name@[0] != 46);
            }
            if name@.len() == 2 {
                assert(name@[0] != 46 || name@[1] != 46);
            }
        }
    }
    let sl = find_stem_len(&name);
    let mut r = copy_range(p, 0, start);
    proof {
        lemma_stem_bounds(name@);
    }
    let stem = copy_range(&name, 0, sl);
    let mut k: usize = 0;
    let ghost before = r@;
    while k < stem.len()
        invariant
            k <= stem@.len(),
            r@ == before + stem@.take(k as int),
        decreases stem.len() - k,
    {
        proof {
            assert((before + stem@.take(k as int)).push(stem@[k as int]) =~= before + stem@.take(
                k + 1,
            ));
        }
        r.push(stem[k]);
        k += 1;
    }
    r.push(46);
    let mut k2: usize = 0;
    let ghost before2 = r@;
    while k2 < ext.len()
        invariant
            k2 <= ext@.len(),
            r@ == before2 + ext@.take(k2 as int),
        decreases ext.len() - k2,
    {
        proof {
            assert((before2 + ext@.take(k2 as int)).push(ext@[k2 as int]) =~= before2
                + ext@.take(k2 + 1));
        }
        r.push(ext[k2]);
        k2 += 1;
    }
    proof {
        assert(stem@.take(stem@.len() as int) =~= stem@);
        assert(ext@.take(ext@.len() as int) =~= ext@);
        assert(stem@ =~= name@.take(stem_len(name@)));
        assert(p@.subrange(0, start as int) =~= p@.take(start as int));
        assert(r@ =~= p@.take(start as int) + name@.take(stem_len(name@)) + seq![46u8] + ext@);
    }
    r
}

/// The stem is never longer than the name.
proof fn lemma_stem_bounds(c: Seq<u8>)
    ensures
        0 <= stem_len(c) <= c.len(),
    decreases c.len(),
{
    if c.len() > 1 && c.last() != 46 {
        lemma_stem_bounds(c.drop_last());
    }
}

/// Strips a base path from the front of a byte path.
pub fn strip_prefix_of(p: &Vec<u8>, base: &Vec<u8>) -> (r: Option<Vec<u8>>)
    ensures
        match r {
            Some(v) => strip_prefix(p@, base@) == Some(v@),
            None => strip_prefix(p@, base@) is None,
        },
{
    if p.len() == base.len() && eq_bytes(p, base) {
        return Some(Vec::new());
    }
    proof {
        if p@.len() == base@.len() {
            assert(p@ != base@);
        }
    }
    if base.len() > 0 && base[base.len() - 1] == 47 && base.len() <= p.len() {
        if prefix_matches(p, base) {
            proof {
                assert(p@.take(base@.len() as int) =~= base@);
            }
            return Some(copy_range(p, base.len(), p.len()));
        }
        proof {
            assert(p@.take(base@.len() as int) != base@);
        }
    }
    if base.len() < p.len() {
        if prefix_matches(p, base) && p[base.len()] == 47 {
            proof {
                assert(p@.take(base@.len() as int + 1) =~= base@ + seq![47u8]);
            }
            return Some(copy_range(p, base.len() + 1, p.len()));
        }
        proof {
            if p@.take(base@.len() as int) == base@ {
                assert(p@[base@.len() as int] != 47);
                assert(p@.take(base@.len() as int + 1) != base@ + seq![47u8]) by {
                    assert((base@ + seq![47u8])[base@.len() as int] == 47);
                }
            } else {
                assert(p@.take(base@.len() as int + 1) != base@ + seq![47u8]) by {
                    let d = choose|d: int|
                        0 <= d < base@.len() && p@.take(base@.len() as int)[d] != base@[d];
                    assert(p@.take(base@.len() as int) =~= p@.take(base@.len() as int));
                    if forall|d: int|
                        0 <= d < base@.len() ==> p@.take(base@.len() as int)[d] == base@[d] {
                        assert(p@.take(base@.len() as int) =~= base@);
                    }
                    let e = choose|e: int|
                        0 <= e < base@.len() && p@.take(base@.len() as int)[e] != base@[e];
                    assert(p@.take(base@.len() as int + 1)[e] != (base@ + seq![47u8])[e]);
                }
            }
        }
    }
    None
}

/// Whether the first `base.len()` bytes of `p` equal `base`.
fn prefix_matches(p: &Vec<u8>, base: &Vec<u8>) -> (r: bool)
    requires
        base@.len() <= p@.len(),
    ensures
        r == (p@.take(base@.len() as int) == base@),
{
    let mut k: usize = 0;
    while k < base.len()
        invariant
            k <= base@.len() <= p@.len(),
            forall|d: int| 0 <= d < k ==> p@[d] == base@[d],
        decreases base.len() - k,
    {
        if p[k] != base[k] {
            proof {
                assert(p@.take(base@.len() as int)[k as int] != base@[k as int]);
            }
            return false;
        }
        k += 1;
    }
    proof {
        assert(p@.take(base@.len() as int) =~= base@);
    }
    true
}

/// Whether two byte vectors hold the same bytes.
pub fn eq_bytes(a: &Vec<u8>, b: &Vec<u8>) -> (r: bool)
    ensures
        r == (a@ == b@),
{
    if a.len() != b.len() {
        proof {
            assert(a@ != b@);
        }
        return false;
    }
    let mut k: usize = 0;
    while k < a.len()
        invariant
            k <= a@.len(),
            a@.len() == b@.len(),
            forall|d: int| 0 <= d < k ==> a@[d] == b@[d],
        decreases a.len() - k,
    {
        if a[k] != b[k] {
            return false;
        }
        k += 1;
    }
    proof {
        assert(a@ =~= b@);
    }
    true
}

/// The default output path: the given one where present, otherwise the
/// input's file name with the target extension, under the current
/// directory.
pub fn default_path(path: Option<Vec<u8>>, default: Vec<u8>, ext: &Vec<u8>) -> (r: Vec<u8>)
    ensures
        r@ == (match path {
            Some(p) => p@,
            None => path_join(seq![46u8], with_extension(default@, ext@).skip(file_name_start(
                with_extension(default@, ext@),
            ))),
        }),
{
    match path {
        Some(p) => p,
        None => {
            let renamed = set_extension(&default, ext);
            let start = find_file_name_start(&renamed);
            let name = copy_range(&renamed, start, renamed.len());
            let dot: Vec<u8> = vec![46u8];
            proof {
                assert(dot@ =~= seq![46u8]);
                assert(name@ =~= with_extension(default@, ext@).skip(file_name_start(
                    with_extension(default@, ext@),
                )));
            }
            join(&dot, &name)
        },
    }
}

/// A display form of a path of at most 53 bytes: a long path keeps only
/// its last 50 bytes, behind an ellipsis.
pub fn shorten_path(path: &Vec<u8>) -> (r: Vec<u8>)
    ensures
        path@.len() > 50 ==> r@ == seq![46u8, 46u8, 46u8] + path@.skip(path@.len() - 50),
        path@.len() <= 50 ==> r@ == path@,
{
    if path.len() > 50 {
        let mut r: Vec<u8> = vec![46u8, 46u8, 46u8];
        proof {
            assert(r@ =~= seq![46u8, 46u8, 46u8]);
        }
        let tail = copy_range(path, path.len() - 50, path.len());
        let mut k: usize = 0;
        let ghost head = r@;
        while k < tail.len()
            invariant
                k <= tail@.len(),
                r@ == head + tail@.take(k as int),
            decreases tail.len() - k,
        {
            proof {
                assert((head + tail@.take(k as int)).push(tail@[k as int]) =~= head + tail@.take(
                    k + 1,
                ));
            }
            r.push(tail[k]);
            k += 1;
        }
        proof {
            assert(tail@.take(tail@.len() as int) =~= tail@);
            assert(r@ =~= seq![46u8, 46u8, 46u8] + path@.skip(path@.len() - 50));
        }
        r
    } else {
        copy_range(path, 0, path.len())
    }
}

} // verus!
