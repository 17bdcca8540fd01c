use vstd::prelude::*;

verus! {

broadcast use vstd::std_specs::vec::group_vec_axioms, vstd::seq::group_seq_axioms;

/// A directory listing: files and directories by name, children in the order
/// in which they are visited.
#[derive(Debug, PartialEq)]
pub enum FileTree {
    File(String),
    Dir(String, Vec<FileTree>),
}

/// One step of writing a tree out under a destination directory; the path is
/// relative to the tree's top, one component per element.
#[derive(Debug, PartialEq)]
pub enum CopyStep {
    MakeDir(Vec<String>),
    CopyFile(Vec<String>),
}

pub open spec fn names_of(v: Seq<String>) -> Seq<Seq<char>> {
    v.map_values(|s: String| s@)
}

/// A step with its path as a sequence of names.
pub enum StepView {
    MakeDir(Seq<Seq<char>>),
    CopyFile(Seq<Seq<char>>),
}

pub open spec fn step_view(s: CopyStep) -> StepView {
    match s {
        CopyStep::MakeDir(p) => StepView::MakeDir(names_of(p@)),
        CopyStep::CopyFile(p) => StepView::CopyFile(names_of(p@)),
    }
}

pub open spec fn steps_view(v: Seq<CopyStep>) -> Seq<StepView> {
    v.map_values(|s: CopyStep| step_view(s))
}

/// The path, below the listing, of the first file named `name` in a depth-first
/// walk that visits entries in order and enters each directory where it stands.
pub open spec fn first_file(es: Seq<FileTree>, name: Seq<char>) -> Option<Seq<Seq<char>>>
    decreases es,
{
    if es.len() == 0 {
        None
    } else {
        match file_in_entry(es[0], name) {
            Some(p) => Some(p),
            None => first_file(es.subrange(1, es.len() as int), name),
        }
    }
}

pub open spec fn file_in_entry(t: FileTree, name: Seq<char>) -> Option<Seq<Seq<char>>>
    decreases t,
{
    match t {
        FileTree::File(n) => if n@ == name {
            Some(seq![n@])
        } else {
            None
        },
        FileTree::Dir(n, cs) => match first_file(cs@, name) {
            Some(p) => Some(seq![n@] + p),
            None => None,
        },
    }
}

/// The steps that write out the entries `es` under `prefix`: each directory is
/// made before its contents, and each file copied, in the listing's order.
pub open spec fn plan_entries(es: Seq<FileTree>, prefix: Seq<Seq<char>>) -> Seq<StepView>
    decreases es,
{
    if es.len() == 0 {
        Seq::empty()
    } else {
        plan_entry(es[0], prefix) + plan_entries(es.subrange(1, es.len() as int), prefix)
    }
}

pub open spec fn plan_entry(t: FileTree, prefix: Seq<Seq<char>>) -> Seq<StepView>
    decreases t,
{
    match t {
        FileTree::File(n) => seq![StepView::CopyFile(prefix.push(n@))],
        FileTree::Dir(n, cs) => seq![StepView::MakeDir(prefix.push(n@))] + plan_entries(
            cs@,
            prefix.push(n@),
        ),
    }
}

fn copy_names(v: &Vec<String>) -> (r: Vec<String>)
    ensures
        names_of(r@) == names_of(v@),
{
    let mut r: Vec<String> = Vec::new();
    let mut i: usize = 0;
    while i < v.len()
        invariant
            i <= v.len(),
            names_of(r@) == names_of(v@).subrange(0, i as int),
        decreases v.len() - i,
    {
        let c = v[i].clone();
        proof {
            assert(names_of(r@.push(c)) =~= names_of(r@).push(c@));
            assert(names_of(v@)[i as int] == v@[i as int]@);
            assert(names_of(v@).subrange(0, i + 1) =~= names_of(v@).subrange(0, i as int).push(
                v@[i as int]@,
            ));
        }
        r.push(c);
        i = i + 1;
    }
    assert(names_of(v@).subrange(0, v.len() as int) =~= names_of(v@));
    r
}

fn find_in_entries(es: &Vec<FileTree>, file_name: &str) -> (r: Option<Vec<String>>)
    ensures
        match r {
            Some(p) => first_file(es@, file_name@) == Some(names_of(p@)),
            None => first_file(es@, file_name@) is None,
        },
    decreases es@,
{
    let mut i: usize = 0;
    assert(es@.subrange(0, es.len() as int) =~= es@);
    while i < es.len()
        invariant
            i <= es.len(),
            first_file(es@, file_name@) == first_file(es@.subrange(i as int, es.len() as int), file_name@),
        decreases es.len() - i,
    {
        let ghost rest = es@.subrange(i as int, es.len() as int);
        assert(rest[0] == es@[i as int]);
        assert(rest.subrange(1, rest.len() as int) =~= es@.subrange(i + 1, es.len() as int));
        assert(first_file(rest, file_name@) == match file_in_entry(es@[i as int], file_name@) {
            Some(p) => Some(p),
            None => first_file(es@.subrange(i + 1, es.len() as int), file_name@),
        });
        match &es[i] {
            FileTree::File(n) => {
                if crate::text::same_text(n.as_str(), file_name) {
                    let mut p: Vec<String> = Vec::new();
                    p.push(n.clone());
                    assert(names_of(p@) =~= seq![n@]);
                    return Some(p);
                }
            },
            FileTree::Dir(n, cs) => {
                match find_in_entries(cs, file_name) {
                    Some(sub) => {
                        let mut p: Vec<String> = Vec::new();
                        p.push(n.clone());
                        let mut k: usize = 0;
                        while k < sub.len()
                            invariant
                                k <= sub.len(),
                                names_of(p@) == seq![n@] + names_of(sub@).subrange(0, k as int),
                            decreases sub.len() - k,
                        {
                            let c = sub[k].clone();
                            proof {
                                assert(names_of(p@.push(c)) =~= names_of(p@).push(c@));
                                assert(names_of(sub@)[k as int] == sub@[k as int]@);
                            }
                            p.push(c);
                            k = k + 1;
                            assert(names_of(p@) =~= seq![n@] + names_of(sub@).subrange(0, k as int));
                        }
                        assert(names_of(sub@).subrange(0, sub.len() as int) =~= names_of(sub@));
                        return Some(p);
                    },
                    None => {},
                }
            },
        }
        i = i + 1;
    }
    assert(es@.subrange(i as int, es.len() as int).len() == 0);
    None
}

/// The path, below `entries`, of the first file named `file_name`: entries are
/// visited in order and each directory is searched where it stands, before the
/// entries after it. A directory of that name does not count.
pub fn find_file_recursively(entries: &Vec<FileTree>, file_name: &str) -> (r: Option<Vec<String>>)
    ensures
        match r {
            Some(p) => first_file(entries@, file_name@) == Some(names_of(p@)),
            None => first_file(entries@, file_name@) is None,
        },
{
    find_in_entries(entries, file_name)
}

fn plan_into(out: &mut Vec<CopyStep>, es: &Vec<FileTree>, prefix: &Vec<String>)
    ensures
        steps_view(final(out)@) == steps_view(old(out)@) + plan_entries(es@, names_of(prefix@)),
    decreases es@,
{
    let ghost start = steps_view(out@);
    let ghost pre = names_of(prefix@);
    let mut i: usize = 0;
    assert(es@.subrange(0, es.len() as int) =~= es@);
    while i < es.len()
        invariant
            i <= es.len(),
            pre == names_of(prefix@),
            start + plan_entries(es@, pre) == steps_view(out@) + plan_entries(
                es@.subrange(i as int, es.len() as int),
                pre,
            ),
        decreases es.len() - i,
    {
        let ghost rest = es@.subrange(i as int, es.len() as int);
        let ghost before = steps_view(out@);
        assert(rest[0] == es@[i as int]);
        assert(rest.subrange(1, rest.len() as int) =~= es@.subrange(i + 1, es.len() as int));
        let ghost tail = plan_entries(es@.subrange(i + 1, es.len() as int), pre);
        assert(plan_entries(rest, pre) == plan_entry(es@[i as int], pre) + tail);
        match &es[i] {
            FileTree::File(n) => {
                let mut p = copy_names(prefix);
                let ghost p0 = p@;
                p.push(n.clone());
                assert(names_of(p@) =~= pre.push(n@)) by {
                    assert(names_of(p0.push(p@.last())) =~= names_of(p0).push(p@.last()@));
                    assert(p@ == p0.push(p@.last()));
                }
                let step = CopyStep::CopyFile(p);
                proof {
                    assert(steps_view(out@.push(step)) =~= steps_view(out@).push(step_view(step)));
                }
                out.push(step);
                assert(plan_entry(es@[i as int], pre) == seq![step_view(step)]);
                assert(before + (seq![step_view(step)] + tail) =~= steps_view(out@) + tail);
            },
            FileTree::Dir(n, cs) => {
                let mut p = copy_names(prefix);
                let ghost p0 = p@;
                p.push(n.clone());
                assert(names_of(p@) =~= pre.push(n@)) by {
                    assert(names_of(p0.push(p@.last())) =~= names_of(p0).push(p@.last()@));
                    assert(p@ == p0.push(p@.last()));
                }
                let q = copy_names(&p);
                let step = CopyStep::MakeDir(q);
                proof {
                    assert(steps_view(out@.push(step)) =~= steps_view(out@).push(step_view(step)));
                }
                out.push(step);
                let ghost mid = steps_view(out@);
                plan_into(out, cs, &p);
                assert(plan_entry(es@[i as int], pre) == seq![StepView::MakeDir(pre.push(n@))]
                    + plan_entries(cs@, pre.push(n@)));
                assert(before + (seq![StepView::MakeDir(pre.push(n@))] + plan_entries(
                    cs@,
                    pre.push(n@),
                ) + tail) =~= steps_view(out@) + tail);
            },
        }
        i = i + 1;
    }
    assert(plan_entries(es@.subrange(i as int, es.len() as int), pre) =~= Seq::<StepView>::empty());
    assert(steps_view(out@) + Seq::<StepView>::empty() =~= steps_view(out@));
}

/// The steps that write out `entries` under a destination: for each entry in
/// order, a directory is made and then filled, a file is copied.
pub fn extraction_plan(entries: &Vec<FileTree>) -> (r: Vec<CopyStep>)
    ensures
        steps_view(r@) == plan_entries(entries@, Seq::empty()),
{
    let mut out: Vec<CopyStep> = Vec::new();
    let prefix: Vec<String> = Vec::new();
    assert(names_of(prefix@) =~= Seq::<Seq<char>>::empty());
    plan_into(&mut out, entries, &prefix);
    assert(steps_view(out@) =~= Seq::<StepView>::empty() + plan_entries(entries@, Seq::empty()));
    out
}

} // verus!
