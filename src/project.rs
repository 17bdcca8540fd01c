use vstd::prelude::*;

verus! {

broadcast use vstd::std_specs::vec::group_vec_axioms, vstd::seq::group_seq_axioms;

pub open spec fn component_views(v: Seq<String>) -> Seq<Seq<char>> {
    v.map_values(|s: String| s@)
}

/// Index of the first `true` in `found` at or after `k`, below `n`.
pub open spec fn first_found(found: Seq<bool>, n: int, k: int) -> Option<int>
    decreases n - k,
{
    if k < 0 || k >= n || k >= found.len() {
        None
    } else if found[k] {
        Some(k)
    } else {
        first_found(found, n, k + 1)
    }
}

/// The directory `up` levels above `dir` (a directory is its list of path
/// components, outermost first).
pub open spec fn ancestor(dir: Seq<Seq<char>>, up: int) -> Seq<Seq<char>> {
    dir.subrange(0, dir.len() - up)
}

/// The project root seen from `dir`, given `found[k]`: whether the marker file
/// was found in the directory `k` levels above `dir` (`found[0]` for `dir`
/// itself). A missing observation counts as not found.
pub open spec fn observed_root(dir: Seq<Seq<char>>, found: Seq<bool>) -> Option<Seq<Seq<char>>> {
    match first_found(found, dir.len() as int, 0) {
        Some(k) => Some(ancestor(dir, k)),
        None => None,
    }
}

/// The nearest directory, among `dir` and its ancestors, that `marked` holds;
/// `len` bounds the length of the candidates.
pub open spec fn root_within(dir: Seq<Seq<char>>, marked: Set<Seq<Seq<char>>>, len: int) -> Option<
    Seq<Seq<char>>,
>
    decreases len,
{
    if len <= 0 || len > dir.len() {
        None
    } else if marked.contains(dir.subrange(0, len)) {
        Some(dir.subrange(0, len))
    } else {
        root_within(dir, marked, len - 1)
    }
}

/// The project root of `dir` when `marked` is the set of directories holding
/// the marker file: the nearest of `dir` and its ancestors in `marked`.
pub open spec fn project_root(dir: Seq<Seq<char>>, marked: Set<Seq<Seq<char>>>) -> Option<
    Seq<Seq<char>>,
> {
    root_within(dir, marked, dir.len() as int)
}

/// What checking each of `dir` and its ancestors for the marker reports.
pub open spec fn observations(dir: Seq<Seq<char>>, marked: Set<Seq<Seq<char>>>) -> Seq<bool> {
    Seq::new(dir.len(), |k: int| marked.contains(ancestor(dir, k)))
}

/// The project root: the first of `start` and its ancestors, in upward order,
/// where the marker file was found (`found[k]` reports the directory `k`
/// levels above `start`). `None` when the marker is found nowhere up to the
/// filesystem root.
pub fn find_project_dir(start: &Vec<String>, found: &Vec<bool>) -> (r: Option<Vec<String>>)
    ensures
        match r {
            Some(d) => observed_root(component_views(start@), found@) == Some(
                component_views(d@),
            ),
            None => observed_root(component_views(start@), found@) is None,
        },
{
    let n = start.len();
    let mut k: usize = 0;
    while k < n && k < found.len()
        invariant
            k <= n == start.len(),
            first_found(found@, n as int, 0) == first_found(found@, n as int, k as int),
        decreases n - k,
    {
        if found[k] {
            let len = n - k;
            let mut d: Vec<String> = Vec::new();
            let mut i: usize = 0;
            while i < len
                invariant
                    i <= len <= start.len(),
                    component_views(d@) == component_views(start@).subrange(0, i as int),
                decreases len - i,
            {
                let c = start[i].clone();
                proof {
                    assert(component_views(d@.push(c)) =~= component_views(d@).push(c@));
                    assert(component_views(start@)[i as int] == start@[i as int]@);
                }
                d.push(c);
                i = i + 1;
                assert(component_views(d@) =~= component_views(start@).subrange(0, i as int));
            }
            return Some(d);
        }
        k = k + 1;
    }
    None
}

proof fn lemma_first_found_observed(dir: Seq<Seq<char>>, marked: Set<Seq<Seq<char>>>, k: int)
    requires
        0 <= k <= dir.len(),
    ensures
        match first_found(observations(dir, marked), dir.len() as int, k) {
            Some(j) => root_within(dir, marked, dir.len() - k) == Some(ancestor(dir, j)),
            None => root_within(dir, marked, dir.len() - k) is None,
        },
    decreases dir.len() - k,
{
    if k < dir.len() {
        lemma_first_found_observed(dir, marked, k + 1);
    }
}

/// Checking `dir` and each ancestor for the marker and taking the first hit
/// gives the project root.
pub proof fn lemma_observed_root(dir: Seq<Seq<char>>, marked: Set<Seq<Seq<char>>>)
    ensures
        observed_root(dir, observations(dir, marked)) == project_root(dir, marked),
{
    lemma_first_found_observed(dir, marked, 0);
}

proof fn lemma_root_within(dir: Seq<Seq<char>>, marked: Set<Seq<Seq<char>>>, len: int)
    requires
        len <= dir.len(),
    ensures
        match root_within(dir, marked, len) {
            Some(r) => 1 <= r.len() <= len && r == dir.subrange(0, r.len() as int)
                && marked.contains(r) && forall|m: int|
                r.len() < m <= len ==> !marked.contains(#[trigger] dir.subrange(0, m)),
            None => forall|m: int|
                1 <= m <= len && m <= dir.len() ==> !marked.contains(#[trigger] dir.subrange(0, m)),
        },
    decreases len,
{
    if len > 0 {
        lemma_root_within(dir, marked, len - 1);
    }
}

/// `dir` lies in the project rooted at `r`: `r` is `dir` or one of its
/// ancestors, and no directory below `r` on the way down to `dir` holds a marker.
pub open spec fn within_project(dir: Seq<Seq<char>>, r: Seq<Seq<char>>, marked: Set<Seq<Seq<char>>>) -> bool {
    &&& r.len() <= dir.len()
    &&& dir.subrange(0, r.len() as int) == r
    &&& forall|m: int| r.len() < m <= dir.len() ==> !marked.contains(#[trigger] dir.subrange(0, m))
}

/// From any two directories in the same project, the root found is that
/// project's root.
pub proof fn lemma_same_project(
    d1: Seq<Seq<char>>,
    d2: Seq<Seq<char>>,
    r: Seq<Seq<char>>,
    marked: Set<Seq<Seq<char>>>,
)
    requires
        r.len() >= 1,
        marked.contains(r),
        within_project(d1, r, marked),
        within_project(d2, r, marked),
    ensures
        project_root(d1, marked) == Some(r),
        project_root(d2, marked) == Some(r),
{
    lemma_root_in_project(d1, r, marked);
    lemma_root_in_project(d2, r, marked);
}

proof fn lemma_root_in_project(d: Seq<Seq<char>>, r: Seq<Seq<char>>, marked: Set<Seq<Seq<char>>>)
    requires
        r.len() >= 1,
        marked.contains(r),
        within_project(d, r, marked),
    ensures
        project_root(d, marked) == Some(r),
{
    lemma_root_within(d, marked, d.len() as int);
    match project_root(d, marked) {
        Some(q) => {
            if q.len() < r.len() {
                assert(marked.contains(d.subrange(0, r.len() as int)));
            } else if q.len() > r.len() {
                assert(!marked.contains(d.subrange(0, q.len() as int)));
            }
        },
        None => {
            assert(marked.contains(d.subrange(0, r.len() as int)));
        },
    }
}

/// Resolving again from the root found gives the same root.
pub proof fn lemma_root_idempotent(dir: Seq<Seq<char>>, marked: Set<Seq<Seq<char>>>)
    ensures
        match project_root(dir, marked) {
            Some(r) => project_root(r, marked) == Some(r),
            None => true,
        },
{
    lemma_root_within(dir, marked, dir.len() as int);
    match project_root(dir, marked) {
        Some(r) => {
            assert(r.subrange(0, r.len() as int) =~= r);
            lemma_root_in_project(r, r, marked);
        },
        None => {},
    }
}

} // verus!
