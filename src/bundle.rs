use vstd::prelude::*;
use crate::version::char_views;

verus! {

broadcast use vstd::std_specs::vec::group_vec_axioms, vstd::seq::group_seq_axioms;

/// The module sources of a project: each entry is a file path relative to the
/// module root, with `/` between directories, and the file's text.
pub struct ModuleSet {
    pub files: Vec<(String, String)>,
}

/// The text of a bundle, and the names of the required modules that no file
/// provided (their requirement expressions are left in the text as written).
pub struct Bundle {
    pub text: String,
    pub missing: Vec<String>,
}

#[derive(Debug)]
pub enum BundleError {
    /// A module requires itself through the listed chain of module files;
    /// the last file is the one already being expanded.
    CyclicRequirement(Vec<String>),
}

pub open spec fn string_views(v: Seq<String>) -> Seq<Seq<char>> {
    v.map_values(|s: String| s@)
}

pub open spec fn is_quote(c: char) -> bool {
    c == '\'' || c == '"'
}

pub open spec fn require_word() -> Seq<char> {
    seq!['r', 'e', 'q', 'u', 'i', 'r', 'e', '(']
}

/// Index of the first quote in `s` at or after `k`, or `s.len()` when there is none.
pub open spec fn next_quote(s: Seq<char>, k: int) -> int
    decreases s.len() - k,
{
    if k < 0 || k >= s.len() {
        s.len() as int
    } else if is_quote(s[k]) {
        k
    } else {
        next_quote(s, k + 1)
    }
}

/// A requirement expression starting at `i`: `require(` and a quote, a non-empty
/// module name free of quotes, a quote and `)`. Gives the index just past the
/// expression and the module name.
pub open spec fn require_at(s: Seq<char>, i: int) -> Option<(int, Seq<char>)> {
    if 0 <= i && i + 8 < s.len() && s.subrange(i, i + 8) == require_word() && is_quote(s[i + 8]) {
        let j = next_quote(s, i + 9);
        if j > i + 9 && j < s.len() && s.len() - j > 1 && s[j + 1] == ')' {
            Some((j + 2, s.subrange(i + 9, j)))
        } else {
            None
        }
    } else {
        None
    }
}

pub open spec fn lua_extension() -> Seq<char> {
    seq!['.', 'l', 'u', 'a']
}

/// The file a module name resolves to: dots become directory separators and
/// the scripting language's extension is added.
pub open spec fn module_file(name: Seq<char>) -> Seq<char> {
    name.map_values(|c: char| if c == '.' { '/' } else { c }) + lua_extension()
}

/// Index of the first file with path `path`, or -1.
pub open spec fn file_position(files: Seq<(String, String)>, path: Seq<char>) -> int
    decreases files.len(),
{
    if files.len() == 0 {
        -1
    } else {
        let p = file_position(files.drop_last(), path);
        if p >= 0 {
            p
        } else if files.last().0@ == path {
            files.len() - 1
        } else {
            -1
        }
    }
}

/// How many files are not on the stack of modules being expanded.
pub open spec fn unvisited(files: Seq<(String, String)>, stack: Seq<Seq<char>>) -> nat
    decreases files.len(),
{
    if files.len() == 0 {
        0
    } else {
        unvisited(files.drop_last(), stack) + if stack.contains(files.last().0@) {
            0nat
        } else {
            1nat
        }
    }
}

/// Puts `out` and `missing` in front of an expansion's result.
pub open spec fn prepend(
    out: Seq<char>,
    missing: Seq<Seq<char>>,
    r: Result<(Seq<char>, Seq<Seq<char>>), Seq<Seq<char>>>,
) -> Result<(Seq<char>, Seq<Seq<char>>), Seq<Seq<char>>> {
    match r {
        Ok((o, m)) => Ok((out + o, missing + m)),
        Err(chain) => Err(chain),
    }
}

/// The text of `s` from index `i` on with every requirement expression replaced
/// by the expansion of the module it names, and the names of missing modules;
/// or the chain of module files that closes a cycle. `stack` holds the module
/// files being expanded around `s`.
pub open spec fn expansion(
    files: Seq<(String, String)>,
    stack: Seq<Seq<char>>,
    s: Seq<char>,
    i: int,
) -> Result<(Seq<char>, Seq<Seq<char>>), Seq<Seq<char>>>
    decreases unvisited(files, stack), s.len() - i,
{
    if i < 0 || i >= s.len() {
        Ok((Seq::empty(), Seq::empty()))
    } else {
        match require_at(s, i) {
            None => prepend(seq![s[i]], Seq::empty(), expansion(files, stack, s, i + 1)),
            Some((end, name)) => {
                let path = module_file(name);
                let p = file_position(files, path);
                if p < 0 {
                    prepend(s.subrange(i, end), seq![name], expansion(files, stack, s, end))
                } else if stack.contains(path) {
                    Err(stack.push(path))
                } else {
                    proof {
                        lemma_unvisited_push(files, stack, path);
                    }
                    match expansion(files, stack.push(path), files[p].1@, 0) {
                        Err(chain) => Err(chain),
                        Ok((o, m)) => prepend(o, m, expansion(files, stack, s, end)),
                    }
                }
            },
        }
    }
}

pub proof fn lemma_file_position(files: Seq<(String, String)>, path: Seq<char>)
    ensures
        -1 <= file_position(files, path) < files.len(),
        file_position(files, path) >= 0 ==> files[file_position(files, path)].0@ == path,
        file_position(files, path) >= 0 ==> forall|j: int|
            0 <= j < file_position(files, path) ==> (#[trigger] files[j]).0@ != path,
        file_position(files, path) < 0 ==> forall|j: int|
            0 <= j < files.len() ==> (#[trigger] files[j]).0@ != path,
    decreases files.len(),
{
    if files.len() > 0 {
        let d = files.drop_last();
        lemma_file_position(d, path);
        let p = file_position(files, path);
        if p < 0 {
            assert forall|j: int| 0 <= j < files.len() implies (#[trigger] files[j]).0@ != path by {
                if j < files.len() - 1 {
                    assert(files[j] == d[j]);
                }
            }
        } else {
            assert forall|j: int| 0 <= j < p implies (#[trigger] files[j]).0@ != path by {
                assert(files[j] == d[j]);
            }
        }
    }
}

pub proof fn lemma_unvisited_push(files: Seq<(String, String)>, stack: Seq<Seq<char>>, x: Seq<char>)
    ensures
        unvisited(files, stack.push(x)) <= unvisited(files, stack),
        file_position(files, x) >= 0 && !stack.contains(x) ==> unvisited(files, stack.push(x))
            < unvisited(files, stack),
    decreases files.len(),
{
    if files.len() > 0 {
        let d = files.drop_last();
        lemma_unvisited_push(d, stack, x);
        lemma_file_position(files, x);
        lemma_file_position(d, x);
        let k = files.last().0@;
        if stack.contains(k) {
            assert(stack.push(x).contains(k)) by {
                let w = choose|w: int| 0 <= w < stack.len() && stack[w] == k;
                assert(stack.push(x)[w] == k);
            }
        }
        if k == x {
            assert(stack.push(x).contains(k)) by {
                assert(stack.push(x)[stack.len() as int] == k);
            }
        }
        if !stack.push(x).contains(k) {
            assert(!stack.contains(k)) by {
                if stack.contains(k) {
                    let w = choose|w: int| 0 <= w < stack.len() && stack[w] == k;
                    assert(stack.push(x)[w] == k);
                }
            }
        }
        if file_position(files, x) >= 0 && !stack.contains(x) && file_position(d, x) < 0 {
            assert(k == x);
        }
    }
}


proof fn lemma_prepend_assoc(
    a: Seq<char>,
    m: Seq<Seq<char>>,
    b: Seq<char>,
    n: Seq<Seq<char>>,
    r: Result<(Seq<char>, Seq<Seq<char>>), Seq<Seq<char>>>,
)
    ensures
        prepend(a, m, prepend(b, n, r)) == prepend(a + b, m + n, r),
{
    match r {
        Ok((o, k)) => {
            assert(a + (b + o) =~= (a + b) + o);
            assert(m + (n + k) =~= (m + n) + k);
        },
        Err(_) => {},
    }
}

proof fn lemma_char_views_push(v: Seq<Vec<char>>, x: Vec<char>)
    ensures
        char_views(v.push(x)) == char_views(v).push(x@),
{
    assert(char_views(v.push(x)) =~= char_views(v).push(x@));
}

proof fn lemma_string_views_push(v: Seq<String>, x: String)
    ensures
        string_views(v.push(x)) == string_views(v).push(x@),
{
    assert(string_views(v.push(x)) =~= string_views(v).push(x@));
}

pub open spec fn result_view(r: Result<(Vec<char>, Vec<Vec<char>>), Vec<Vec<char>>>) -> Result<
    (Seq<char>, Seq<Seq<char>>),
    Seq<Seq<char>>,
> {
    match r {
        Ok((o, m)) => Ok((o@, char_views(m@))),
        Err(c) => Err(char_views(c@)),
    }
}

fn next_quote_from(s: &Vec<char>, k: usize) -> (r: usize)
    requires
        k <= s.len(),
    ensures
        r as int == next_quote(s@, k as int),
{
    let mut j = k;
    while j < s.len() && !(s[j] == '\'' || s[j] == '"')
        invariant
            k <= j <= s.len(),
            next_quote(s@, k as int) == next_quote(s@, j as int),
        decreases s.len() - j,
    {
        j = j + 1;
    }
    j
}

fn require_at_index(s: &Vec<char>, i: usize) -> (r: Option<(usize, Vec<char>)>)
    requires
        i < s.len(),
    ensures
        match r {
            Some((e, n)) => require_at(s@, i as int) == Some((e as int, n@)),
            None => require_at(s@, i as int) is None,
        },
{
    if !(s.len() - i > 8) {
        return None;
    }
    if !(s[i] == 'r' && s[i + 1] == 'e' && s[i + 2] == 'q' && s[i + 3] == 'u' && s[i + 4] == 'i'
        && s[i + 5] == 'r' && s[i + 6] == 'e' && s[i + 7] == '(') {
        assert(s@.subrange(i as int, i + 8) != require_word()) by {
            if s@.subrange(i as int, i + 8) == require_word() {
                assert(s@.subrange(i as int, i + 8)[0] == s@[i as int]);
                assert(s@.subrange(i as int, i + 8)[1] == s@[i + 1]);
                assert(s@.subrange(i as int, i + 8)[2] == s@[i + 2]);
                assert(s@.subrange(i as int, i + 8)[3] == s@[i + 3]);
                assert(s@.subrange(i as int, i + 8)[4] == s@[i + 4]);
                assert(s@.subrange(i as int, i + 8)[5] == s@[i + 5]);
                assert(s@.subrange(i as int, i + 8)[6] == s@[i + 6]);
                assert(s@.subrange(i as int, i + 8)[7] == s@[i + 7]);
            }
        }
        return None;
    }
    assert(s@.subrange(i as int, i + 8) =~= require_word());
    if !(s[i + 8] == '\'' || s[i + 8] == '"') {
        return None;
    }
    let j = next_quote_from(s, i + 9);
    if j > i + 9 && j < s.len() && s.len() - j > 1 && s[j + 1] == ')' {
        let mut name: Vec<char> = Vec::new();
        let mut k: usize = i + 9;
        while k < j
            invariant
                i + 9 <= k <= j < s.len(),
                name@ == s@.subrange(i + 9, k as int),
            decreases j - k,
        {
            name.push(s[k]);
            k = k + 1;
            assert(name@ =~= s@.subrange(i + 9, k as int));
        }
        Some((j + 2, name))
    } else {
        None
    }
}

fn module_file_of(name: &Vec<char>) -> (r: Vec<char>)
    ensures
        r@ == module_file(name@),
{
    let mut r: Vec<char> = Vec::new();
    let mut i: usize = 0;
    while i < name.len()
        invariant
            i <= name.len(),
            r@ == name@.subrange(0, i as int).map_values(|c: char| if c == '.' { '/' } else { c }),
        decreases name.len() - i,
    {
        if name[i] == '.' {
            r.push('/');
        } else {
            r.push(name[i]);
        }
        i = i + 1;
        assert(r@ =~= name@.subrange(0, i as int).map_values(
            |c: char| if c == '.' { '/' } else { c },
        ));
    }
    assert(name@.subrange(0, name.len() as int) =~= name@);
    r.push('.');
    r.push('l');
    r.push('u');
    r.push('a');
    assert(r@ =~= module_file(name@));
    r
}

fn find_file(files: &Vec<(String, String)>, path: &Vec<char>) -> (r: Option<usize>)
    ensures
        match r {
            Some(p) => p as int == file_position(files@, path@) && p < files.len(),
            None => file_position(files@, path@) < 0,
        },
{
    let mut i: usize = 0;
    while i < files.len()
        invariant
            i <= files.len(),
            forall|j: int| 0 <= j < i ==> (#[trigger] files@[j]).0@ != path@,
        decreases files.len() - i,
    {
        let key = crate::text::chars_of(files[i].0.as_str());
        if crate::text::same_chars(&key, path) {
            proof {
                lemma_file_position(files@, path@);
                assert(files@[i as int].0@ == path@);
            }
            return Some(i);
        }
        i = i + 1;
    }
    proof {
        lemma_file_position(files@, path@);
    }
    None
}

fn stack_contains(stack: &Vec<Vec<char>>, x: &Vec<char>) -> (r: bool)
    ensures
        r == char_views(stack@).contains(x@),
{
    let mut i: usize = 0;
    while i < stack.len()
        invariant
            i <= stack.len(),
            forall|j: int| 0 <= j < i ==> (#[trigger] stack@[j])@ != x@,
        decreases stack.len() - i,
    {
        if crate::text::same_chars(&stack[i], x) {
            assert(char_views(stack@)[i as int] == x@);
            return true;
        }
        i = i + 1;
    }
    assert(!char_views(stack@).contains(x@)) by {
        if char_views(stack@).contains(x@) {
            let w = choose|w: int| 0 <= w < stack@.len() && char_views(stack@)[w] == x@;
            assert(stack@[w]@ == x@);
        }
    }
    false
}

fn append_names(dst: &mut Vec<Vec<char>>, src: Vec<Vec<char>>)
    ensures
        char_views(final(dst)@) == char_views(old(dst)@) + char_views(src@),
{
    let ghost start = char_views(dst@);
    let mut src = src;
    let mut i: usize = 0;
    let n = src.len();
    while i < n
        invariant
            i <= n == src.len(),
            char_views(dst@) == start + char_views(src@).subrange(0, i as int),
        decreases n - i,
    {
        let item = crate::text::clone_chars(&src[i]);
        proof {
            lemma_char_views_push(dst@, item);
            assert(char_views(src@)[i as int] == src@[i as int]@);
            assert(char_views(src@).subrange(0, i + 1) =~= char_views(src@).subrange(0, i as int).push(src@[i as int]@));
        }
        dst.push(item);
        i = i + 1;
        assert(char_views(dst@) =~= start + char_views(src@).subrange(0, i as int));
    }
    assert(char_views(src@).subrange(0, n as int) =~= char_views(src@));
}

fn expand(files: &Vec<(String, String)>, stack: &mut Vec<Vec<char>>, s: &Vec<char>) -> (r: Result<
    (Vec<char>, Vec<Vec<char>>),
    Vec<Vec<char>>,
>)
    ensures
        final(stack)@ == old(stack)@,
        result_view(r) == expansion(files@, char_views(old(stack)@), s@, 0),
    decreases unvisited(files@, char_views(old(stack)@)),
{
    let ghost sv = char_views(stack@);
    let mut out: Vec<char> = Vec::new();
    let mut miss: Vec<Vec<char>> = Vec::new();
    let mut i: usize = 0;
    assert(prepend(out@, char_views(miss@), expansion(files@, sv, s@, 0)) =~= expansion(
        files@,
        sv,
        s@,
        0,
    )) by {
        match expansion(files@, sv, s@, 0) {
            Ok((o, m)) => {
                assert(Seq::<char>::empty() + o =~= o);
                assert(char_views(miss@) + m =~= m);
            },
            Err(_) => {},
        }
    }
    while i < s.len()
        invariant
            i <= s.len(),
            stack@ == old(stack)@,
            sv == char_views(stack@),
            expansion(files@, sv, s@, 0) == prepend(
                out@,
                char_views(miss@),
                expansion(files@, sv, s@, i as int),
            ),
        decreases s.len() - i,
    {
        match require_at_index(s, i) {
            None => {
                proof {
                    assert(expansion(files@, sv, s@, i as int) == prepend(
                        seq![s@[i as int]],
                        Seq::empty(),
                        expansion(files@, sv, s@, i + 1),
                    ));
                    lemma_prepend_assoc(
                        out@,
                        char_views(miss@),
                        seq![s@[i as int]],
                        Seq::empty(),
                        expansion(files@, sv, s@, i + 1),
                    );
                    assert(char_views(miss@) + Seq::<Seq<char>>::empty() =~= char_views(miss@));
                }
                let ghost out0 = out@;
                out.push(s[i]);
                assert(out@ =~= out0 + seq![s@[i as int]]);
                i = i + 1;
            },
            Some((end, name)) => {
                let path = module_file_of(&name);
                match find_file(files, &path) {
                    None => {
                        proof {
                            assert(expansion(files@, sv, s@, i as int) == prepend(
                                s@.subrange(i as int, end as int),
                                seq![name@],
                                expansion(files@, sv, s@, end as int),
                            ));
                            lemma_prepend_assoc(
                                out@,
                                char_views(miss@),
                                s@.subrange(i as int, end as int),
                                seq![name@],
                                expansion(files@, sv, s@, end as int),
                            );
                        }
                        let mut k = i;
                        let ghost out0 = out@;
                        while k < end
                            invariant
                                i <= k <= end <= s.len(),
                                out@ == out0 + s@.subrange(i as int, k as int),
                            decreases end - k,
                        {
                            out.push(s[k]);
                            k = k + 1;
                            assert(out@ =~= out0 + s@.subrange(i as int, k as int));
                        }
                        let ghost miss0 = char_views(miss@);
                        let ghost nv = name@;
                        proof {
                            lemma_char_views_push(miss@, name);
                        }
                        miss.push(name);
                        assert(char_views(miss@) =~= miss0 + seq![nv]);
                        i = end;
                    },
                    Some(p) => {
                        assert(file_position(files@, path@) >= 0);
                        if stack_contains(stack, &path) {
                            assert(expansion(files@, sv, s@, i as int) == Err::<
                                (Seq<char>, Seq<Seq<char>>),
                                Seq<Seq<char>>,
                            >(sv.push(path@)));
                            let mut chain: Vec<Vec<char>> = Vec::new();
                            let mut k: usize = 0;
                            while k < stack.len()
                                invariant
                                    k <= stack.len(),
                                    char_views(chain@) == char_views(stack@).subrange(0, k as int),
                                decreases stack.len() - k,
                            {
                                let item = crate::text::clone_chars(&stack[k]);
                                proof {
                                    lemma_char_views_push(chain@, item);
                                    assert(char_views(stack@)[k as int] == stack@[k as int]@);
                                    assert(char_views(stack@).subrange(0, k + 1) =~= char_views(stack@).subrange(0, k as int).push(stack@[k as int]@));
                                }
                                chain.push(item);
                                k = k + 1;
                                assert(char_views(chain@) =~= char_views(stack@).subrange(
                                    0,
                                    k as int,
                                ));
                            }
                            proof {
                                lemma_char_views_push(chain@, path);
                                assert(char_views(stack@).subrange(0, stack.len() as int) =~= sv);
                            }
                            chain.push(path);
                            return Err(chain);
                        }
                        let content = crate::text::chars_of(files[p].1.as_str());
                        let ghost path_view = path@;
                        proof {
                            lemma_unvisited_push(files@, sv, path@);
                        }
                        stack.push(path);
                        assert(char_views(stack@) =~= sv.push(path_view));
                        let inner = expand(files, stack, &content);
                        let _ = stack.pop();
                        assert(stack@ =~= old(stack)@);
                        assert(expansion(files@, sv, s@, i as int) == match expansion(
                            files@,
                            sv.push(path_view),
                            content@,
                            0,
                        ) {
                            Err(chain) => Err(chain),
                            Ok((o, m)) => prepend(o, m, expansion(files@, sv, s@, end as int)),
                        });
                        match inner {
                            Err(c) => {
                                return Err(c);
                            },
                            Ok((o, m)) => {
                                proof {
                                    lemma_prepend_assoc(
                                        out@,
                                        char_views(miss@),
                                        o@,
                                        char_views(m@),
                                        expansion(files@, sv, s@, end as int),
                                    );
                                }
                                crate::text::append_chars(&mut out, &o);
                                append_names(&mut miss, m);
                                i = end;
                            },
                        }
                    },
                }
            },
        }
    }
    assert(expansion(files@, sv, s@, i as int) == Ok::<
        (Seq<char>, Seq<Seq<char>>),
        Seq<Seq<char>>,
    >((Seq::empty(), Seq::empty())));
    assert(out@ + Seq::<char>::empty() =~= out@);
    assert(char_views(miss@) + Seq::<Seq<char>>::empty() =~= char_views(miss@));
    Ok((out, miss))
}

fn strings_of(v: &Vec<Vec<char>>) -> (r: Vec<String>)
    ensures
        string_views(r@) == char_views(v@),
{
    let mut r: Vec<String> = Vec::new();
    let mut i: usize = 0;
    while i < v.len()
        invariant
            i <= v.len(),
            string_views(r@) == char_views(v@).subrange(0, i as int),
        decreases v.len() - i,
    {
        let item = crate::text::string_of(&v[i]);
        proof {
            lemma_string_views_push(r@, item);
            assert(char_views(v@)[i as int] == v@[i as int]@);
            assert(char_views(v@).subrange(0, i + 1) =~= char_views(v@).subrange(0, i as int).push(v@[i as int]@));
        }
        r.push(item);
        i = i + 1;
        assert(string_views(r@) =~= char_views(v@).subrange(0, i as int));
    }
    assert(char_views(v@).subrange(0, v.len() as int) =~= char_views(v@));
    r
}

/// Inlines the modules that `haystack` requires: each `require('a.b')` (either
/// quote) whose file `a/b.lua` is in `modules` is replaced by that file's text,
/// itself expanded in the same way, at every place it occurs. A requirement with
/// no file is left as written and its name reported. A module that requires
/// itself, directly or through others, is an error naming the chain.
pub fn find_lua_requirements(haystack: &str, modules: &ModuleSet) -> (r: Result<
    Bundle,
    BundleError,
>)
    ensures
        match r {
            Ok(b) => expansion(modules.files@, Seq::empty(), haystack@, 0) == Ok::<
                (Seq<char>, Seq<Seq<char>>),
                Seq<Seq<char>>,
            >((b.text@, string_views(b.missing@))),
            Err(BundleError::CyclicRequirement(chain)) => expansion(
                modules.files@,
                Seq::empty(),
                haystack@,
                0,
            ) == Err::<(Seq<char>, Seq<Seq<char>>), Seq<Seq<char>>>(string_views(chain@)),
        },
{
    let s = crate::text::chars_of(haystack);
    let mut stack: Vec<Vec<char>> = Vec::new();
    assert(char_views(stack@) =~= Seq::<Seq<char>>::empty());
    match expand(&modules.files, &mut stack, &s) {
        Ok((o, m)) => Ok(Bundle { text: crate::text::string_of(&o), missing: strings_of(&m) }),
        Err(c) => Err(BundleError::CyclicRequirement(strings_of(&c))),
    }
}

/// The file a module name resolves to, relative to the module root.
pub fn module_file_path(name: &str) -> (r: String)
    ensures
        r@ == module_file(name@),
{
    let n = crate::text::chars_of(name);
    let f = module_file_of(&n);
    crate::text::string_of(&f)
}

/// The name of the bundle written for a project whose root directory is
/// called `root_name`: that name with the extension `.qplug`.
pub fn bundle_file_name(root_name: &str) -> (r: String)
    ensures
        r@ == root_name@ + seq!['.', 'q', 'p', 'l', 'u', 'g'],
{
    let mut n = crate::text::chars_of(root_name);
    n.push('.');
    n.push('q');
    n.push('p');
    n.push('l');
    n.push('u');
    n.push('g');
    crate::text::string_of(&n)
}


pub open spec fn has_no_quote(name: Seq<char>) -> bool {
    forall|k: int| 0 <= k < name.len() ==> !is_quote(#[trigger] name[k])
}

/// `require(`, an opening quote, `name`, a closing quote and `)`.
pub open spec fn require_expression(open: char, name: Seq<char>, close: char) -> Seq<char> {
    require_word() + seq![open] + name + seq![close, ')']
}

proof fn lemma_next_quote_skips(s: Seq<char>, k: int, stop: int)
    requires
        0 <= k <= stop < s.len(),
        is_quote(s[stop]),
        forall|m: int| k <= m < stop ==> !is_quote(#[trigger] s[m]),
    ensures
        next_quote(s, k) == stop,
    decreases stop - k,
{
    if k < stop {
        lemma_next_quote_skips(s, k + 1, stop);
    }
}

/// A requirement is recognised the same way whichever quote characters
/// surround the module name, and whatever text follows it.
pub proof fn lemma_quote_styles(open: char, name: Seq<char>, close: char, rest: Seq<char>)
    requires
        is_quote(open),
        is_quote(close),
        name.len() > 0,
        has_no_quote(name),
    ensures
        require_at(require_expression(open, name, close) + rest, 0) == Some(
            (name.len() + 11int, name),
        ),
{
    let s = require_expression(open, name, close) + rest;
    let stop: int = 9 + name.len() as int;
    assert(s.subrange(0, 8) =~= require_word());
    assert(s[8] == open);
    assert(s[stop] == close);
    assert forall|m: int| 9 <= m < stop implies !is_quote(#[trigger] s[m]) by {
        assert(s[m] == name[m - 9]);
    }
    lemma_next_quote_skips(s, 9, stop);
    assert(s[stop + 1] == ')');
    assert(s.subrange(9, stop) =~= name);
}

/// Two modules that require each other make the bundle of a text requiring
/// the first one fail with the chain first, second, first.
pub proof fn lemma_two_module_cycle(files: Seq<(String, String)>, a: Seq<char>, b: Seq<char>, q: char)
    requires
        is_quote(q),
        a.len() > 0,
        b.len() > 0,
        has_no_quote(a),
        has_no_quote(b),
        module_file(a) != module_file(b),
        file_position(files, module_file(a)) >= 0,
        file_position(files, module_file(b)) >= 0,
        files[file_position(files, module_file(a))].1@ == require_expression(q, b, q),
        files[file_position(files, module_file(b))].1@ == require_expression(q, a, q),
    ensures
        expansion(files, Seq::empty(), require_expression(q, a, q), 0) == Err::<
            (Seq<char>, Seq<Seq<char>>),
            Seq<Seq<char>>,
        >(seq![module_file(a), module_file(b), module_file(a)]),
{
    let pa = module_file(a);
    let pb = module_file(b);
    let ea = require_expression(q, a, q);
    let eb = require_expression(q, b, q);
    lemma_quote_styles(q, a, q, Seq::empty());
    lemma_quote_styles(q, b, q, Seq::empty());
    assert(ea + Seq::<char>::empty() =~= ea);
    assert(eb + Seq::<char>::empty() =~= eb);
    let s0 = Seq::<Seq<char>>::empty();
    let s1 = s0.push(pa);
    let s2 = s1.push(pb);
    assert(!s0.contains(pa));
    assert(!s1.contains(pb)) by {
        if s1.contains(pb) {
            let w = choose|w: int| 0 <= w < s1.len() && s1[w] == pb;
            assert(s1[w] == pa);
        }
    }
    assert(s2[0] == pa);
    assert(s2.contains(pa));
    assert(expansion(files, s2, ea, 0) == Err::<(Seq<char>, Seq<Seq<char>>), Seq<Seq<char>>>(
        s2.push(pa),
    ));
    assert(expansion(files, s1, eb, 0) == Err::<(Seq<char>, Seq<Seq<char>>), Seq<Seq<char>>>(
        s2.push(pa),
    ));
    assert(s2.push(pa) =~= seq![pa, pb, pa]);
}

/// Writing a module name with dots or with slashes between its parts names
/// the same file.
pub proof fn lemma_separator_styles(name: Seq<char>)
    ensures
        module_file(name) == module_file(name.map_values(|c: char| if c == '.' { '/' } else { c })),
{
    let slashed = name.map_values(|c: char| if c == '.' { '/' } else { c });
    assert(slashed.map_values(|c: char| if c == '.' { '/' } else { c }) =~= name.map_values(
        |c: char| if c == '.' { '/' } else { c },
    ));
}

} // verus!
