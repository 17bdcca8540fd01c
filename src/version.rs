use vstd::prelude::*;

verus! {

/// Which component of a four-part build version an increment applies to.
/// Ordered `Dev < Patch < Minor < Major`.
#[derive(Clone, Copy, Debug, PartialEq, Eq, Structural)]
pub enum BuildIncrement {
    Dev,
    Patch,
    Minor,
    Major,
}

impl BuildIncrement {
    /// Index of the component this level increments in `major.minor.patch.dev`.
    pub open spec fn position(self) -> int {
        match self {
            BuildIncrement::Major => 0,
            BuildIncrement::Minor => 1,
            BuildIncrement::Patch => 2,
            BuildIncrement::Dev => 3,
        }
    }
}

pub open spec fn is_digit(c: char) -> bool {
    '0' <= c && c <= '9'
}

pub open spec fn digit_value(c: char) -> nat {
    (c as int - '0' as int) as nat
}

pub open spec fn digit_char(n: nat) -> char {
    if n == 0 { '0' }
    else if n == 1 { '1' }
    else if n == 2 { '2' }
    else if n == 3 { '3' }
    else if n == 4 { '4' }
    else if n == 5 { '5' }
    else if n == 6 { '6' }
    else if n == 7 { '7' }
    else if n == 8 { '8' }
    else { '9' }
}

/// A non-empty run of decimal digits.
pub open spec fn is_numeral(s: Seq<char>) -> bool {
    s.len() > 0 && forall|i: int| 0 <= i < s.len() ==> is_digit(#[trigger] s[i])
}

/// The number that a run of decimal digits denotes.
pub open spec fn digits_value(s: Seq<char>) -> nat
    decreases s.len(),
{
    if s.len() == 0 {
        0
    } else {
        digits_value(s.drop_last()) * 10 + digit_value(s.last())
    }
}

/// The value of one version component: its number when it is a numeral, else 0.
pub open spec fn component_value(s: Seq<char>) -> nat {
    if is_numeral(s) { digits_value(s) } else { 0 }
}

/// The decimal notation of `n`, without leading zeros.
pub open spec fn decimal(n: nat) -> Seq<char>
    decreases n,
{
    if n < 10 {
        seq![digit_char(n)]
    } else {
        decimal(n / 10).push(digit_char(n % 10))
    }
}

/// The pieces of `s` between dots, left to right (`"a..b"` has three pieces).
pub open spec fn split_dots(s: Seq<char>) -> Seq<Seq<char>>
    decreases s.len(),
{
    if s.len() == 0 {
        seq![Seq::empty()]
    } else {
        let p = split_dots(s.drop_last());
        if s.last() == '.' {
            p.push(Seq::empty())
        } else {
            p.update(p.len() - 1, p.last().push(s.last()))
        }
    }
}

/// The four numbers `major.minor.patch.dev` that a build version string denotes:
/// a missing or unparsable component counts as 0, pieces past the fourth are ignored.
pub open spec fn version_numbers(s: Seq<char>) -> Seq<nat> {
    Seq::new(
        4,
        |i: int|
            if i < split_dots(s).len() {
                component_value(split_dots(s)[i])
            } else {
                0
            },
    )
}

/// `v` with the component at `pos` raised by one, the lower ones reset to 0
/// and the higher ones kept.
pub open spec fn incremented(v: Seq<nat>, pos: int) -> Seq<nat> {
    Seq::new(v.len(), |i: int| if i < pos { v[i] } else if i == pos { v[i] + 1 } else { 0 })
}

pub open spec fn dot() -> Seq<char> {
    seq!['.']
}

/// `a.b.c.d` in decimal.
pub open spec fn version_text(v: Seq<nat>) -> Seq<char> {
    decimal(v[0]) + dot() + decimal(v[1]) + dot() + decimal(v[2]) + dot() + decimal(v[3])
}

/// `a.b`: the two leading components of a version vector.
pub open spec fn short_version_text(v: Seq<nat>) -> Seq<char> {
    decimal(v[0]) + dot() + decimal(v[1])
}

/// Strict lexicographic order on sequences of equal length.
pub open spec fn lex_less(a: Seq<nat>, b: Seq<nat>) -> bool {
    exists|k: int|
        0 <= k < a.len() && #[trigger] a[k] < b[k] && forall|j: int| 0 <= j < k ==> a[j] == b[j]
}

proof fn lemma_digit_roundtrip(c: char)
    requires
        is_digit(c),
    ensures
        digit_value(c) < 10,
        digit_char(digit_value(c)) == c,
{
}

proof fn lemma_digit_char(n: nat)
    requires
        n < 10,
    ensures
        is_digit(digit_char(n)),
        digit_value(digit_char(n)) == n,
{
}

proof fn lemma_value_single(c: char)
    ensures
        digits_value(seq![c]) == digit_value(c),
{
    assert(seq![c].drop_last() =~= Seq::<char>::empty());
    assert(digits_value(Seq::<char>::empty()) == 0);
}

/// A leading zero does not change the value of a digit run.
proof fn lemma_leading_zero(t: Seq<char>)
    ensures
        digits_value(seq!['0'] + t) == digits_value(t),
    decreases t.len(),
{
    let z = seq!['0'] + t;
    if t.len() > 0 {
        assert(z.drop_last() =~= seq!['0'] + t.drop_last());
        assert(z.last() == t.last());
        lemma_leading_zero(t.drop_last());
    } else {
        assert(z =~= seq!['0']);
        lemma_value_single('0');
        assert(digits_value(Seq::<char>::empty()) == 0);
    }
}

/// A digit run is worth 0 exactly when all its digits are zeros.
proof fn lemma_value_zero(t: Seq<char>)
    requires
        forall|i: int| 0 <= i < t.len() ==> is_digit(#[trigger] t[i]),
    ensures
        (digits_value(t) == 0) <==> (forall|i: int| 0 <= i < t.len() ==> #[trigger] t[i] == '0'),
    decreases t.len(),
{
    if t.len() > 0 {
        let p = t.drop_last();
        assert forall|i: int| 0 <= i < p.len() implies is_digit(#[trigger] p[i]) by {
            assert(p[i] == t[i]);
        }
        lemma_value_zero(p);
        if digits_value(t) == 0 {
            assert forall|i: int| 0 <= i < t.len() implies #[trigger] t[i] == '0' by {
                if i < t.len() - 1 {
                    assert(p[i] == t[i]);
                }
            }
        }
        if forall|i: int| 0 <= i < t.len() ==> #[trigger] t[i] == '0' {
            assert forall|i: int| 0 <= i < p.len() implies #[trigger] p[i] == '0' by {
                assert(p[i] == t[i]);
            }
            assert(t[t.len() - 1] == '0');
        }
    }
}

/// Digits without a leading zero are the decimal notation of their value.
proof fn lemma_decimal_of_value(t: Seq<char>)
    requires
        is_numeral(t),
        t.len() == 1 || t[0] != '0',
    ensures
        decimal(digits_value(t)) == t,
    decreases t.len(),
{
    let p = t.drop_last();
    lemma_digit_roundtrip(t.last());
    if t.len() == 1 {
        assert(t =~= seq![t[0]]);
        lemma_value_single(t[0]);
        assert(decimal(digits_value(t)) =~= t);
    } else {
        assert(is_numeral(p)) by {
            assert forall|i: int| 0 <= i < p.len() implies is_digit(#[trigger] p[i]) by {
                assert(p[i] == t[i]);
            }
        }
        assert(p[0] == t[0]);
        lemma_decimal_of_value(p);
        lemma_value_zero(p);
        assert(p[0] != '0');
        let v = digits_value(t);
        let a = digits_value(p);
        let d = digit_value(t.last());
        assert(a >= 1);
        assert(v == a * 10 + d);
        assert(v / 10 == a && v % 10 == d) by (nonlinear_arith)
            requires
                v == a * 10 + d,
                d < 10,
        ;
        assert(decimal(v) =~= t);
    }
}

/// The decimal notation of a number is a numeral without leading zero denoting it.
proof fn lemma_decimal_props(n: nat)
    ensures
        is_numeral(decimal(n)),
        decimal(n).len() == 1 || decimal(n)[0] != '0',
        n > 0 ==> decimal(n)[0] != '0',
        digits_value(decimal(n)) == n,
    decreases n,
{
    if n < 10 {
        lemma_digit_char(n);
        lemma_value_single(digit_char(n));
    } else {
        lemma_decimal_props(n / 10);
        let p = decimal(n / 10);
        let t = decimal(n);
        lemma_digit_char(n % 10);
        assert(t.drop_last() =~= p);
        assert(t[0] == p[0]);
        assert forall|i: int| 0 <= i < t.len() implies is_digit(#[trigger] t[i]) by {
            if i < p.len() {
                assert(t[i] == p[i]);
            }
        }
        assert(n == (n / 10) * 10 + n % 10);
    }
}

/// The digit run one more than `t` (all of whose characters are digits).
pub open spec fn plus_one(t: Seq<char>) -> Seq<char>
    decreases t.len(),
{
    if t.len() == 0 {
        seq!['1']
    } else if t.last() == '9' {
        plus_one(t.drop_last()).push('0')
    } else {
        t.drop_last().push(digit_char(digit_value(t.last()) + 1))
    }
}

proof fn lemma_plus_one(t: Seq<char>)
    requires
        forall|i: int| 0 <= i < t.len() ==> is_digit(#[trigger] t[i]),
        t.len() == 0 || t.len() == 1 || t[0] != '0',
    ensures
        is_numeral(plus_one(t)),
        plus_one(t)[0] != '0',
        digits_value(plus_one(t)) == digits_value(t) + 1,
    decreases t.len(),
{
    if t.len() == 0 {
        lemma_value_single('1');
        assert(digits_value(t) == 0);
    } else {
        let p = t.drop_last();
        assert forall|i: int| 0 <= i < p.len() implies is_digit(#[trigger] p[i]) by {
            assert(p[i] == t[i]);
        }
        lemma_digit_roundtrip(t.last());
        assert(digits_value(t) == digits_value(p) * 10 + digit_value(t.last()));
        if t.last() == '9' {
            if p.len() > 0 {
                assert(p[0] == t[0]);
            }
            lemma_plus_one(p);
            let q = plus_one(p);
            let r = q.push('0');
            assert(r.drop_last() =~= q);
            assert(r[0] == q[0]);
            assert forall|i: int| 0 <= i < r.len() implies is_digit(#[trigger] r[i]) by {
                if i < q.len() {
                    assert(r[i] == q[i]);
                }
            }
        } else {
            let d = digit_value(t.last());
            lemma_digit_char(d + 1);
            let r = p.push(digit_char(d + 1));
            assert(r.drop_last() =~= p);
            if p.len() > 0 {
                assert(r[0] == t[0]);
            } else {
                assert(d + 1 != 0);
            }
            assert forall|i: int| 0 <= i < r.len() implies is_digit(#[trigger] r[i]) by {
                if i < p.len() {
                    assert(r[i] == p[i]);
                }
            }
        }
    }
}

/// Raising the decimal notation of `n` by one gives that of `n + 1`.
proof fn lemma_decimal_succ(n: nat)
    ensures
        plus_one(decimal(n)) == decimal(n + 1),
{
    lemma_decimal_props(n);
    lemma_plus_one(decimal(n));
    lemma_decimal_of_value(plus_one(decimal(n)));
}


/// The contents of each vector of characters, as sequences.
pub open spec fn char_views(v: Seq<Vec<char>>) -> Seq<Seq<char>> {
    v.map_values(|x: Vec<char>| x@)
}

fn next_digit(c: char) -> (r: char)
    requires
        is_digit(c),
        c != '9',
    ensures
        r == digit_char(digit_value(c) + 1),
{
    match c {
        '0' => '1',
        '1' => '2',
        '2' => '3',
        '3' => '4',
        '4' => '5',
        '5' => '6',
        '6' => '7',
        '7' => '8',
        _ => '9',
    }
}

/// The first `n` digits of `d`, raised by one.
fn plus_one_prefix(d: &Vec<char>, n: usize) -> (r: Vec<char>)
    requires
        n <= d.len(),
        forall|i: int| 0 <= i < d.len() ==> is_digit(#[trigger] d@[i]),
    ensures
        r@ == plus_one(d@.subrange(0, n as int)),
    decreases n,
{
    let ghost t = d@.subrange(0, n as int);
    if n == 0 {
        vec!['1']
    } else if d[n - 1] == '9' {
        let mut r = plus_one_prefix(d, n - 1);
        assert(t.drop_last() =~= d@.subrange(0, n - 1));
        r.push('0');
        r
    } else {
        let mut r = crate::text::copy_range(d, 0, n - 1);
        assert(t.drop_last() =~= d@.subrange(0, n - 1));
        r.push(next_digit(d[n - 1]));
        r
    }
}

/// The decimal notation of a version component's value.
fn normalize_component(piece: &Vec<char>) -> (r: Vec<char>)
    ensures
        r@ == decimal(component_value(piece@)),
{
    let mut numeral = piece.len() > 0;
    let mut i: usize = 0;
    while i < piece.len()
        invariant
            i <= piece.len(),
            numeral == (piece.len() > 0 && forall|j: int| 0 <= j < i ==> is_digit(#[trigger] piece@[j])),
        decreases piece.len() - i,
    {
        if !('0' <= piece[i] && piece[i] <= '9') {
            numeral = false;
        }
        i = i + 1;
    }
    if !numeral {
        proof {
            lemma_decimal_props(0);
            assert(decimal(0) =~= seq!['0']);
        }
        return vec!['0'];
    }
    let mut k: usize = 0;
    assert(piece@.subrange(0, piece.len() as int) =~= piece@);
    while k + 1 < piece.len() && piece[k] == '0'
        invariant
            k < piece.len(),
            is_numeral(piece@),
            digits_value(piece@.subrange(k as int, piece.len() as int)) == digits_value(piece@),
        decreases piece.len() - k,
    {
        proof {
            let rest = piece@.subrange(k + 1, piece.len() as int);
            assert(piece@.subrange(k as int, piece.len() as int) =~= seq!['0'] + rest);
            lemma_leading_zero(rest);
        }
        k = k + 1;
    }
    let mut r: Vec<char> = Vec::new();
    let mut j: usize = k;
    while j < piece.len()
        invariant
            k <= j <= piece.len(),
            r@ == piece@.subrange(k as int, j as int),
        decreases piece.len() - j,
    {
        r.push(piece[j]);
        j = j + 1;
        assert(r@ =~= piece@.subrange(k as int, j as int));
    }
    proof {
        assert(r@ =~= piece@.subrange(k as int, piece.len() as int));
        assert forall|i: int| 0 <= i < r@.len() implies is_digit(#[trigger] r@[i]) by {
            assert(r@[i] == piece@[k + i]);
        }
        lemma_decimal_of_value(r@);
    }
    r
}

/// The pieces of `s` between dots.
fn split_on_dots(s: &Vec<char>) -> (r: Vec<Vec<char>>)
    ensures
        char_views(r@) == split_dots(s@),
{
    let mut pieces: Vec<Vec<char>> = Vec::new();
    let mut cur: Vec<char> = Vec::new();
    let mut i: usize = 0;
    while i < s.len()
        invariant
            i <= s.len(),
            char_views(pieces@).push(cur@) == split_dots(s@.subrange(0, i as int)),
        decreases s.len() - i,
    {
        let c = s[i];
        proof {
            assert(s@.subrange(0, i + 1).drop_last() =~= s@.subrange(0, i as int));
        }
        if c == '.' {
            let done = cur;
            pieces.push(done);
            cur = Vec::new();
            assert(char_views(pieces@).push(cur@) =~= split_dots(s@.subrange(0, i + 1)));
        } else {
            cur.push(c);
            assert(char_views(pieces@).push(cur@) =~= split_dots(s@.subrange(0, i + 1)));
        }
        i = i + 1;
    }
    pieces.push(cur);
    assert(s@.subrange(0, s.len() as int) =~= s@);
    assert(char_views(pieces@) =~= split_dots(s@));
    pieces
}

/// The four components of a build version, each in decimal notation.
fn version_digits(s: &str) -> (r: Vec<Vec<char>>)
    ensures
        r.len() == 4,
        forall|i: int| 0 <= i < 4 ==> (#[trigger] r@[i])@ == decimal(version_numbers(s@)[i]),
{
    let chars = crate::text::chars_of(s);
    let pieces = split_on_dots(&chars);
    let mut r: Vec<Vec<char>> = Vec::new();
    let mut i: usize = 0;
    while i < 4
        invariant
            i <= 4,
            chars@ == s@,
            char_views(pieces@) == split_dots(s@),
            r.len() == i,
            forall|j: int| 0 <= j < i ==> (#[trigger] r@[j])@ == decimal(version_numbers(s@)[j]),
        decreases 4 - i,
    {
        if i < pieces.len() {
            assert(pieces@[i as int]@ == split_dots(s@)[i as int]);
            r.push(normalize_component(&pieces[i]));
        } else {
            proof {
                lemma_decimal_props(0);
                assert(decimal(0) =~= seq!['0']);
            }
            r.push(vec!['0']);
        }
        i = i + 1;
    }
    r
}

/// `build_version` with the component that `level` names raised by one and the
/// lower components reset to zero, written as `major.minor.patch.dev`.
pub fn increment_build_version(build_version: &str, level: BuildIncrement) -> (r: String)
    ensures
        r@ == version_text(incremented(version_numbers(build_version@), level.position())),
{
    let ghost v = version_numbers(build_version@);
    let ghost w = incremented(v, level.position());
    let parts = version_digits(build_version);
    let pos: usize = match level {
        BuildIncrement::Major => 0,
        BuildIncrement::Minor => 1,
        BuildIncrement::Patch => 2,
        BuildIncrement::Dev => 3,
    };
    let mut out: Vec<char> = Vec::new();
    let mut i: usize = 0;
    while i < 4
        invariant
            i <= 4,
            pos == level.position(),
            parts.len() == 4,
            forall|j: int| 0 <= j < 4 ==> (#[trigger] parts@[j])@ == decimal(v[j]),
            w == incremented(v, pos as int),
            v.len() == 4,
            out@ == version_prefix(w, i as int),
        decreases 4 - i,
    {
        if i > 0 {
            out.push('.');
        }
        if i < pos {
            crate::text::append_chars(&mut out, &parts[i]);
        } else if i == pos {
            let d = &parts[i];
            proof {
                lemma_decimal_props(v[i as int]);
                lemma_decimal_succ(v[i as int]);
                assert(d@.subrange(0, d@.len() as int) =~= d@);
            }
            let up = plus_one_prefix(d, d.len());
            crate::text::append_chars(&mut out, &up);
        } else {
            proof {
                lemma_decimal_props(0);
                assert(decimal(0) =~= seq!['0']);
            }
            out.push('0');
        }
        i = i + 1;
        assert(out@ =~= version_prefix(w, i as int));
    }
    assert(version_prefix(w, 4) =~= version_text(w)) by {
        reveal_with_fuel(version_prefix, 5);
    }
    crate::text::string_of(&out)
}

/// The first `k` components of `v` in decimal, joined by dots.
pub open spec fn version_prefix(v: Seq<nat>, k: int) -> Seq<char>
    decreases k,
{
    if k <= 0 {
        Seq::empty()
    } else if k == 1 {
        decimal(v[0])
    } else {
        version_prefix(v, k - 1) + dot() + decimal(v[k - 1])
    }
}

/// `major.minor` of a build version.
pub fn short_version(build_version: &str) -> (r: String)
    ensures
        r@ == short_version_text(version_numbers(build_version@)),
{
    let parts = version_digits(build_version);
    let mut out: Vec<char> = Vec::new();
    crate::text::append_chars(&mut out, &parts[0]);
    out.push('.');
    crate::text::append_chars(&mut out, &parts[1]);
    crate::text::string_of(&out)
}


pub open spec fn has_no_dot(y: Seq<char>) -> bool {
    forall|i: int| 0 <= i < y.len() ==> #[trigger] y[i] != '.'
}

proof fn lemma_split_no_dot(y: Seq<char>)
    requires
        has_no_dot(y),
    ensures
        split_dots(y) == seq![y],
    decreases y.len(),
{
    if y.len() > 0 {
        let p = y.drop_last();
        assert(has_no_dot(p)) by {
            assert forall|i: int| 0 <= i < p.len() implies #[trigger] p[i] != '.' by {
                assert(p[i] == y[i]);
            }
        }
        lemma_split_no_dot(p);
        assert(y[y.len() - 1] != '.');
        assert(p.push(y.last()) =~= y);
        assert(split_dots(y) =~= seq![y]);
    } else {
        assert(y =~= Seq::<char>::empty());
    }
}

proof fn lemma_split_append(x: Seq<char>, y: Seq<char>)
    requires
        has_no_dot(y),
    ensures
        split_dots(x + dot() + y) == split_dots(x).push(y),
    decreases y.len(),
{
    let s = x + dot() + y;
    if y.len() == 0 {
        assert(s.drop_last() =~= x);
        assert(y =~= Seq::<char>::empty());
        assert(split_dots(s) =~= split_dots(x).push(y));
    } else {
        let p = y.drop_last();
        assert(has_no_dot(p)) by {
            assert forall|i: int| 0 <= i < p.len() implies #[trigger] p[i] != '.' by {
                assert(p[i] == y[i]);
            }
        }
        lemma_split_append(x, p);
        assert(s.drop_last() =~= x + dot() + p);
        assert(s.last() == y.last());
        assert(y[y.len() - 1] != '.');
        assert(p.push(y.last()) =~= y);
        assert(split_dots(s) =~= split_dots(x).push(y));
    }
}

proof fn lemma_decimal_no_dot(n: nat)
    ensures
        has_no_dot(decimal(n)),
        component_value(decimal(n)) == n,
{
    lemma_decimal_props(n);
    let d = decimal(n);
    assert forall|i: int| 0 <= i < d.len() implies #[trigger] d[i] != '.' by {
        assert(is_digit(d[i]));
    }
}

/// Reading back a version written as `a.b.c.d` gives the same four numbers.
pub proof fn lemma_version_text_roundtrip(v: Seq<nat>)
    requires
        v.len() == 4,
    ensures
        version_numbers(version_text(v)) == v,
{
    let d0 = decimal(v[0]);
    let d1 = decimal(v[1]);
    let d2 = decimal(v[2]);
    let d3 = decimal(v[3]);
    lemma_decimal_no_dot(v[0]);
    lemma_decimal_no_dot(v[1]);
    lemma_decimal_no_dot(v[2]);
    lemma_decimal_no_dot(v[3]);
    lemma_split_no_dot(d0);
    lemma_split_append(d0, d1);
    lemma_split_append(d0 + dot() + d1, d2);
    lemma_split_append(d0 + dot() + d1 + dot() + d2, d3);
    let sp = split_dots(version_text(v));
    assert(sp =~= seq![d0, d1, d2, d3]);
    assert(version_numbers(version_text(v)) =~= v);
}

/// Incrementing a build version at any level strictly raises its four numbers in
/// lexicographic order: the chosen component grows by one, the higher ones stay,
/// the lower ones become zero.
pub proof fn lemma_increment_monotonic(build_version: Seq<char>, level: BuildIncrement)
    ensures
        ({
            let before = version_numbers(build_version);
            let after = version_numbers(
                version_text(incremented(before, level.position())),
            );
            &&& lex_less(before, after)
            &&& after[level.position()] == before[level.position()] + 1
            &&& forall|i: int| 0 <= i < level.position() ==> after[i] == before[i]
            &&& forall|i: int| level.position() < i < 4 ==> after[i] == 0
        }),
{
    let before = version_numbers(build_version);
    let w = incremented(before, level.position());
    lemma_version_text_roundtrip(w);
    let k = level.position();
    assert(before[k] < w[k]);
}

} // verus!
