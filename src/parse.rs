use vstd::prelude::*;
use crate::table::{LuaTable, LuaValue, escaped, escape_char, quoted, quote, join, assign_sep, entry_sep};
use crate::version::{is_digit, digits_value};

verus! {

broadcast use vstd::std_specs::vec::group_vec_axioms, vstd::seq::group_seq_axioms;

/// The mathematical value of a literal: strings as character sequences,
/// integers unbounded, tables as ordered key/value sequences.
pub enum Literal {
    Nil,
    Boolean(bool),
    Integer(int),
    Number(Seq<char>),
    Str(Seq<char>),
    Table(Seq<(Seq<char>, Literal)>),
    Unsupported,
}

pub open spec fn literal_of(v: LuaValue) -> Literal
    decreases v,
{
    match v {
        LuaValue::Nil => Literal::Nil,
        LuaValue::Boolean(b) => Literal::Boolean(b),
        LuaValue::Integer(i) => Literal::Integer(i as int),
        LuaValue::Number(t) => Literal::Number(t@),
        LuaValue::Str(s) => Literal::Str(s@),
        LuaValue::Table(t) => Literal::Table(literal_entries(t.entries@)),
        LuaValue::Unsupported => Literal::Unsupported,
    }
}

pub open spec fn literal_entries(es: Seq<(String, LuaValue)>) -> Seq<(Seq<char>, Literal)>
    decreases es,
{
    if es.len() == 0 {
        Seq::empty()
    } else {
        literal_entries(es.drop_last()).push((es.last().0@, literal_of(es.last().1)))
    }
}

pub open spec fn is_space(c: char) -> bool {
    c == ' ' || c == '\t' || c == '\n' || c == '\r'
}

pub open spec fn is_name_start(c: char) -> bool {
    ('a' <= c && c <= 'z') || ('A' <= c && c <= 'Z') || c == '_'
}

pub open spec fn is_name_char(c: char) -> bool {
    is_name_start(c) || is_digit(c)
}

pub open spec fn is_quote_char(c: char) -> bool {
    c == '\'' || c == '"'
}

/// Length of the rest of the line from `i`, not counting the line break.
pub open spec fn line_len(s: Seq<char>, i: int) -> nat
    decreases s.len() - i,
{
    if i < 0 || i >= s.len() || s[i] == '\n' {
        0
    } else {
        1 + line_len(s, i + 1)
    }
}

pub proof fn lemma_line_len_bound(s: Seq<char>, i: int)
    requires
        0 <= i <= s.len(),
    ensures
        i + line_len(s, i) <= s.len(),
    decreases s.len() - i,
{
    if i < s.len() && s[i] != '\n' {
        lemma_line_len_bound(s, i + 1);
    }
}

/// Length of the blanks and `--` comments that start at `i`.
pub open spec fn ws_len(s: Seq<char>, i: int) -> nat
    decreases s.len() - i,
{
    if i < 0 || i >= s.len() {
        0
    } else if is_space(s[i]) {
        1 + ws_len(s, i + 1)
    } else if s[i] == '-' && i + 1 < s.len() && s[i + 1] == '-' {
        proof {
            assert(line_len(s, i) == 1 + line_len(s, i + 1));
            lemma_line_len_bound(s, i);
        }
        line_len(s, i) + ws_len(s, i + line_len(s, i))
    } else {
        0
    }
}

pub open spec fn name_rest_len(s: Seq<char>, i: int) -> nat
    decreases s.len() - i,
{
    if 0 <= i < s.len() && is_name_char(s[i]) {
        1 + name_rest_len(s, i + 1)
    } else {
        0
    }
}

/// Length of the name (a letter or `_`, then letters, digits or `_`) at `i`.
pub open spec fn name_len(s: Seq<char>, i: int) -> nat {
    if 0 <= i < s.len() && is_name_start(s[i]) {
        1 + name_rest_len(s, i + 1)
    } else {
        0
    }
}

pub open spec fn digits_len(s: Seq<char>, i: int) -> nat
    decreases s.len() - i,
{
    if 0 <= i < s.len() && is_digit(s[i]) {
        1 + digits_len(s, i + 1)
    } else {
        0
    }
}

/// The character that the escape `\c` stands for.
pub open spec fn unescape(c: char) -> Option<char> {
    if c == 'n' {
        Some('\n')
    } else if c == 'r' {
        Some('\r')
    } else if c == 't' {
        Some('\t')
    } else if c == '\\' || c == '"' || c == '\'' {
        Some(c)
    } else {
        None
    }
}

/// The characters of a string literal from `i` up to its closing quote `q`,
/// and how many characters that takes, the closing quote included.
pub open spec fn string_rest(s: Seq<char>, i: int, q: char) -> Option<(Seq<char>, nat)>
    decreases s.len() - i,
{
    if i < 0 || i >= s.len() {
        None
    } else if s[i] == q {
        Some((Seq::empty(), 1))
    } else if s[i] == '\n' {
        None
    } else if s[i] == '\\' {
        if i + 1 >= s.len() {
            None
        } else {
            match unescape(s[i + 1]) {
                None => None,
                Some(x) => match string_rest(s, i + 2, q) {
                    Some((t, n)) => Some((seq![x] + t, n + 2)),
                    None => None,
                },
            }
        }
    } else {
        match string_rest(s, i + 1, q) {
            Some((t, n)) => Some((seq![s[i]] + t, n + 1)),
            None => None,
        }
    }
}

/// A quoted string literal at `i`: its characters and its length.
pub open spec fn parse_string(s: Seq<char>, i: int) -> Option<(Seq<char>, nat)> {
    if 0 <= i < s.len() && is_quote_char(s[i]) {
        match string_rest(s, i + 1, s[i]) {
            Some((t, n)) => Some((t, n + 1)),
            None => None,
        }
    } else {
        None
    }
}

/// Length of the exponent (`e`, an optional sign, digits) at `i`; 0 when
/// there is none, and `None` when it has no digits.
pub open spec fn exponent_len(s: Seq<char>, i: int) -> Option<nat> {
    if 0 <= i < s.len() && (s[i] == 'e' || s[i] == 'E') {
        let sign: int = if i + 1 < s.len() && (s[i + 1] == '+' || s[i + 1] == '-') {
            1
        } else {
            0
        };
        let d = digits_len(s, i + 1 + sign);
        if d == 0 {
            None
        } else {
            Some((1 + sign + d) as nat)
        }
    } else {
        Some(0)
    }
}

/// A numeral at `i`: an optional minus, digits, an optional fraction and an
/// optional exponent. Without fraction or exponent and within the range of a
/// 64-bit integer it is an integer; otherwise a number kept as its text.
pub open spec fn parse_number(s: Seq<char>, i: int) -> Option<(Literal, nat)> {
    if i < 0 || i >= s.len() {
        None
    } else {
        let neg = s[i] == '-';
        let ds: int = if neg { i + 1 } else { i };
        let dl = digits_len(s, ds);
        let de = ds + dl;
        let fl: int = if de < s.len() && s[de] == '.' { 1 + digits_len(s, de + 1) as int } else { 0 };
        let fe = de + fl;
        match exponent_len(s, fe) {
            None => None,
            Some(el) => {
                let end = fe + el;
                if dl == 0 || (end < s.len() && (is_name_char(s[end]) || s[end] == '.')) {
                    None
                } else {
                    let v: int = digits_value(s.subrange(ds, de)) as int;
                    let signed: int = if neg { -v } else { v };
                    if fl == 0 && el == 0 && i64::MIN <= signed <= i64::MAX {
                        Some((Literal::Integer(signed), (end - i) as nat))
                    } else {
                        Some((Literal::Number(s.subrange(i, end)), (end - i) as nat))
                    }
                }
            },
        }
    }
}

/// Whether the word `w` stands at `i`, not followed by a name character.
pub open spec fn word_at(s: Seq<char>, i: int, w: Seq<char>) -> bool {
    &&& 0 <= i
    &&& i + w.len() <= s.len()
    &&& s.subrange(i, i + w.len()) == w
    &&& !(i + w.len() < s.len() && is_name_char(s[i + w.len()]))
}

/// A value at `i` and its length.
pub open spec fn parse_value(s: Seq<char>, i: int) -> Option<(Literal, nat)>
    decreases s.len() - i,
{
    if i < 0 || i >= s.len() {
        None
    } else if s[i] == '{' {
        let w = ws_len(s, i + 1);
        if i + 1 + w >= s.len() {
            None
        } else {
            match parse_fields(s, i + 1 + w) {
                Some((es, n)) => Some((Literal::Table(es), 1 + w + n)),
                None => None,
            }
        }
    } else if is_quote_char(s[i]) {
        match parse_string(s, i) {
            Some((t, n)) => Some((Literal::Str(t), n)),
            None => None,
        }
    } else if s[i] == '-' || is_digit(s[i]) {
        parse_number(s, i)
    } else if word_at(s, i, seq!['n', 'i', 'l']) {
        Some((Literal::Nil, 3))
    } else if word_at(s, i, seq!['t', 'r', 'u', 'e']) {
        Some((Literal::Boolean(true), 4))
    } else if word_at(s, i, seq!['f', 'a', 'l', 's', 'e']) {
        Some((Literal::Boolean(false), 5))
    } else {
        None
    }
}

/// The fields of a table from `i` (past the opening brace and blanks) through
/// the closing brace: `name = value` pairs separated by `,` or `;`, a trailing
/// separator allowed. Gives the pairs in order and the length taken.
pub open spec fn parse_fields(s: Seq<char>, i: int) -> Option<(Seq<(Seq<char>, Literal)>, nat)>
    decreases s.len() - i,
{
    if i < 0 || i >= s.len() {
        None
    } else if s[i] == '}' {
        Some((Seq::empty(), 1))
    } else {
        let nl = name_len(s, i);
        let j = i + nl;
        let eq = j + ws_len(s, j);
        if nl == 0 || eq >= s.len() || s[eq] != '=' {
            None
        } else {
            let m = eq + 1 + ws_len(s, eq + 1);
            if m >= s.len() {
                None
            } else {
                match parse_value(s, m) {
                    None => None,
                    Some((v, vl)) => {
                        let p = m + vl + ws_len(s, m + vl);
                        let field = (s.subrange(i, j), v);
                        if p >= s.len() {
                            None
                        } else if s[p] == '}' {
                            Some((seq![field], (p + 1 - i) as nat))
                        } else if s[p] == ',' || s[p] == ';' {
                            let q = p + 1 + ws_len(s, p + 1);
                            if q >= s.len() {
                                None
                            } else {
                                match parse_fields(s, q) {
                                    Some((rest, n)) => Some(
                                        (seq![field] + rest, (q + n - i) as nat),
                                    ),
                                    None => None,
                                }
                            }
                        } else {
                            None
                        }
                    },
                }
            }
        }
    }
}

/// A whole text that assigns one value to one name: `name = value`, with
/// blanks and comments around. Gives the name and the value.
#[verifier::opaque]
pub open spec fn parse_assignment(s: Seq<char>) -> Option<(Seq<char>, Literal)> {
    let i = ws_len(s, 0) as int;
    let nl = name_len(s, i);
    let j = i + nl;
    let k = j + ws_len(s, j);
    if nl == 0 || k >= s.len() || s[k] != '=' {
        None
    } else {
        let m = k + 1 + ws_len(s, k + 1);
        match parse_value(s, m) {
            None => None,
            Some((v, vl)) => if m + vl + ws_len(s, m + vl) == s.len() {
                Some((s.subrange(i, j), v))
            } else {
                None
            },
        }
    }
}


fn is_space_char(c: char) -> (r: bool)
    ensures
        r == is_space(c),
{
    c == ' ' || c == '\t' || c == '\n' || c == '\r'
}

fn is_name_start_char(c: char) -> (r: bool)
    ensures
        r == is_name_start(c),
{
    ('a' <= c && c <= 'z') || ('A' <= c && c <= 'Z') || c == '_'
}

fn is_name_char_exec(c: char) -> (r: bool)
    ensures
        r == is_name_char(c),
{
    is_name_start_char(c) || ('0' <= c && c <= '9')
}

fn line_len_at(s: &Vec<char>, i: usize) -> (r: usize)
    requires
        i <= s.len(),
    ensures
        r == line_len(s@, i as int),
        i + r <= s.len(),
{
    let mut j = i;
    while j < s.len() && s[j] != '\n'
        invariant
            i <= j <= s.len(),
            line_len(s@, i as int) == (j - i) + line_len(s@, j as int),
        decreases s.len() - j,
    {
        j = j + 1;
    }
    j - i
}

fn ws_len_at(s: &Vec<char>, i: usize) -> (r: usize)
    requires
        i <= s.len(),
    ensures
        r == ws_len(s@, i as int),
        i + r <= s.len(),
{
    let mut j = i;
    loop
        invariant
            i <= j <= s.len(),
            ws_len(s@, i as int) == (j - i) + ws_len(s@, j as int),
        ensures
            i <= j <= s.len(),
            ws_len(s@, i as int) == (j - i),
        decreases s.len() - j,
    {
        if j >= s.len() {
            break;
        }
        if is_space_char(s[j]) {
            j = j + 1;
        } else if s[j] == '-' && j + 1 < s.len() && s[j + 1] == '-' {
            let n = line_len_at(s, j);
            assert(line_len(s@, j as int) == 1 + line_len(s@, j + 1));
            j = j + n;
        } else {
            break;
        }
    }
    j - i
}

fn name_len_at(s: &Vec<char>, i: usize) -> (r: usize)
    requires
        i <= s.len(),
    ensures
        r == name_len(s@, i as int),
        i + r <= s.len(),
{
    if i >= s.len() || !is_name_start_char(s[i]) {
        return 0;
    }
    let mut j = i + 1;
    while j < s.len() && is_name_char_exec(s[j])
        invariant
            i < j <= s.len(),
            name_rest_len(s@, i + 1) == (j - i - 1) + name_rest_len(s@, j as int),
        decreases s.len() - j,
    {
        j = j + 1;
    }
    j - i
}

fn digits_len_at(s: &Vec<char>, i: usize) -> (r: usize)
    requires
        i <= s.len(),
    ensures
        r == digits_len(s@, i as int),
        i + r <= s.len(),
{
    let mut j = i;
    while j < s.len() && '0' <= s[j] && s[j] <= '9'
        invariant
            i <= j <= s.len(),
            digits_len(s@, i as int) == (j - i) + digits_len(s@, j as int),
        decreases s.len() - j,
    {
        j = j + 1;
    }
    j - i
}

proof fn lemma_digits_len(s: Seq<char>, i: int)
    requires
        0 <= i <= s.len(),
    ensures
        i + digits_len(s, i) <= s.len(),
        forall|m: int| i <= m < i + digits_len(s, i) ==> is_digit(#[trigger] s[m]),
    decreases s.len() - i,
{
    if i < s.len() && is_digit(s[i]) {
        lemma_digits_len(s, i + 1);
    }
}

fn unescape_char(c: char) -> (r: Option<char>)
    ensures
        r == unescape(c),
{
    if c == 'n' {
        Some('\n')
    } else if c == 'r' {
        Some('\r')
    } else if c == 't' {
        Some('\t')
    } else if c == '\\' || c == '"' || c == '\'' {
        Some(c)
    } else {
        None
    }
}

pub open spec fn compose_text(a: Seq<char>, n: int, r: Option<(Seq<char>, nat)>) -> Option<(Seq<char>, nat)> {
    match r {
        Some((t, m)) => Some((a + t, (n + m) as nat)),
        None => None,
    }
}

fn string_at(s: &Vec<char>, i: usize) -> (r: Option<(Vec<char>, usize)>)
    requires
        i < s.len(),
    ensures
        match r {
            Some((t, n)) => parse_string(s@, i as int) == Some((t@, n as nat)) && i + n <= s.len(),
            None => parse_string(s@, i as int) is None,
        },
{
    let q = s[i];
    if !(q == '\'' || q == '"') {
        return None;
    }
    let mut acc: Vec<char> = Vec::new();
    let mut j = i + 1;
    assert(compose_text(acc@, 0, string_rest(s@, j as int, q)) =~= string_rest(s@, j as int, q)) by {
        match string_rest(s@, j as int, q) {
            Some((t, m)) => {
                assert(acc@ + t =~= t);
            },
            None => {},
        }
    }
    while j < s.len()
        invariant
            i < j <= s.len(),
            q == s@[i as int],
            is_quote_char(q),
            string_rest(s@, i + 1, q) == compose_text(acc@, j - i - 1, string_rest(s@, j as int, q)),
        decreases s.len() - j,
    {
        let c = s[j];
        if c == q {
            assert(string_rest(s@, j as int, q) == Some((Seq::<char>::empty(), 1nat)));
            assert(acc@ + Seq::<char>::empty() =~= acc@);
            return Some((acc, j - i + 1));
        } else if c == '\n' {
            return None;
        } else if c == '\\' {
            if j + 1 >= s.len() {
                return None;
            }
            match unescape_char(s[j + 1]) {
                None => {
                    return None;
                },
                Some(x) => {
                    proof {
                        match string_rest(s@, j + 2, q) {
                            Some((t, m)) => {
                                assert(acc@ + (seq![x] + t) =~= acc@.push(x) + t);
                            },
                            None => {},
                        }
                    }
                    acc.push(x);
                    j = j + 2;
                },
            }
        } else {
            proof {
                match string_rest(s@, j + 1, q) {
                    Some((t, m)) => {
                        assert(acc@ + (seq![c] + t) =~= acc@.push(c) + t);
                    },
                    None => {},
                }
            }
            acc.push(c);
            j = j + 1;
        }
    }
    None
}

fn digit_number(c: char) -> (r: u64)
    requires
        is_digit(c),
    ensures
        r as nat == crate::version::digit_value(c),
{
    (c as u32 - '0' as u32) as u64
}

const INT_MAGNITUDE_LIMIT: u64 = 9223372036854775808;

/// The value of the digits `s[from..to]`, or `true` in second place when it
/// exceeds `INT_MAGNITUDE_LIMIT`.
fn magnitude(s: &Vec<char>, from: usize, to: usize) -> (r: (u64, bool))
    requires
        from <= to <= s.len(),
        forall|m: int| from <= m < to ==> is_digit(#[trigger] s@[m]),
    ensures
        !r.1 ==> r.0 as nat == digits_value(s@.subrange(from as int, to as int)) && r.0
            <= INT_MAGNITUDE_LIMIT,
        r.1 ==> digits_value(s@.subrange(from as int, to as int)) > INT_MAGNITUDE_LIMIT,
{
    let mut acc: u64 = 0;
    let mut over = false;
    let mut k = from;
    assert(s@.subrange(from as int, from as int) =~= Seq::<char>::empty());
    while k < to
        invariant
            from <= k <= to <= s.len(),
            forall|m: int| from <= m < to ==> is_digit(#[trigger] s@[m]),
            !over ==> acc as nat == digits_value(s@.subrange(from as int, k as int)),
            !over ==> acc <= INT_MAGNITUDE_LIMIT,
            over ==> digits_value(s@.subrange(from as int, k as int)) > INT_MAGNITUDE_LIMIT,
        decreases to - k,
    {
        let d = digit_number(s[k]);
        assert(s@.subrange(from as int, k + 1).drop_last() =~= s@.subrange(from as int, k as int));
        assert(s@.subrange(from as int, k + 1).last() == s@[k as int]);
        if !over {
            if acc > (INT_MAGNITUDE_LIMIT - d) / 10 {
                over = true;
            } else {
                acc = acc * 10 + d;
            }
        }
        k = k + 1;
    }
    (acc, over)
}

#[verifier::rlimit(30)]
fn number_at(s: &Vec<char>, i: usize) -> (r: Option<(LuaValue, usize)>)
    requires
        i < s.len(),
    ensures
        match r {
            Some((v, n)) => parse_number(s@, i as int) == Some((literal_of(v), n as nat)) && i + n
                <= s.len(),
            None => parse_number(s@, i as int) is None,
        },
{
    let neg = s[i] == '-';
    let ds = if neg { i + 1 } else { i };
    let dl = digits_len_at(s, ds);
    let de = ds + dl;
    let fl = if de < s.len() && s[de] == '.' { 1 + digits_len_at(s, de + 1) } else { 0 };
    let fe = de + fl;
    let mut el: usize = 0;
    if fe < s.len() && (s[fe] == 'e' || s[fe] == 'E') {
        let sign: usize = if fe + 1 < s.len() && (s[fe + 1] == '+' || s[fe + 1] == '-') {
            1
        } else {
            0
        };
        let d = digits_len_at(s, fe + 1 + sign);
        if d == 0 {
            return None;
        }
        el = 1 + sign + d;
    }
    let end = fe + el;
    if dl == 0 || (end < s.len() && (is_name_char_exec(s[end]) || s[end] == '.')) {
        return None;
    }
    proof {
        lemma_digits_len(s@, ds as int);
    }
    let (acc, over) = magnitude(s, ds, de);
    let total = end - i;
    if fl == 0 && el == 0 && !over {
        if neg {
            let v: i64 = if acc == INT_MAGNITUDE_LIMIT {
                i64::MIN
            } else {
                -(acc as i64)
            };
            return Some((LuaValue::Integer(v), total));
        } else if acc <= i64::MAX as u64 {
            return Some((LuaValue::Integer(acc as i64), total));
        }
    }
    let text = crate::text::copy_range(s, i, end);
    Some((LuaValue::Number(crate::text::string_of(&text)), total))
}


fn word_here(s: &Vec<char>, i: usize, w: &Vec<char>) -> (r: bool)
    requires
        i <= s.len(),
    ensures
        r == word_at(s@, i as int, w@),
{
    if s.len() - i < w.len() {
        return false;
    }
    let mut k: usize = 0;
    while k < w.len()
        invariant
            k <= w.len(),
            i + w.len() <= s.len(),
            forall|m: int| 0 <= m < k ==> s@[i + m] == w@[m],
        decreases w.len() - k,
    {
        if s[i + k] != w[k] {
            assert(s@.subrange(i as int, i + w.len())[k as int] == s@[i + k]);
            return false;
        }
        k = k + 1;
    }
    assert(s@.subrange(i as int, i + w.len()) =~= w@);
    let e = i + w.len();
    !(e < s.len() && is_name_char_exec(s[e]))
}

pub open spec fn compose_fields(
    a: Seq<(Seq<char>, Literal)>,
    n: int,
    r: Option<(Seq<(Seq<char>, Literal)>, nat)>,
) -> Option<(Seq<(Seq<char>, Literal)>, nat)> {
    match r {
        Some((t, m)) => Some((a + t, (n + m) as nat)),
        None => None,
    }
}

fn value_at(s: &Vec<char>, i: usize) -> (r: Option<(LuaValue, usize)>)
    requires
        i <= s.len(),
    ensures
        match r {
            Some((v, n)) => parse_value(s@, i as int) == Some((literal_of(v), n as nat)) && i + n
                <= s.len(),
            None => parse_value(s@, i as int) is None,
        },
    decreases s.len() - i,
{
    if i >= s.len() {
        return None;
    }
    let c = s[i];
    if c == '{' {
        let w = ws_len_at(s, i + 1);
        if i + 1 + w >= s.len() {
            return None;
        }
        match fields_at(s, i + 1 + w) {
            Some((es, n)) => {
                let t = LuaTable { entries: es };
                Some((LuaValue::Table(t), 1 + w + n))
            },
            None => None,
        }
    } else if c == '\'' || c == '"' {
        match string_at(s, i) {
            Some((t, n)) => Some((LuaValue::Str(crate::text::string_of(&t)), n)),
            None => None,
        }
    } else if c == '-' || ('0' <= c && c <= '9') {
        number_at(s, i)
    } else if word_here(s, i, &vec!['n', 'i', 'l']) {
        Some((LuaValue::Nil, 3))
    } else if word_here(s, i, &vec!['t', 'r', 'u', 'e']) {
        Some((LuaValue::Boolean(true), 4))
    } else if word_here(s, i, &vec!['f', 'a', 'l', 's', 'e']) {
        Some((LuaValue::Boolean(false), 5))
    } else {
        None
    }
}

fn fields_at(s: &Vec<char>, i: usize) -> (r: Option<(Vec<(String, LuaValue)>, usize)>)
    requires
        i <= s.len(),
    ensures
        match r {
            Some((es, n)) => parse_fields(s@, i as int) == Some((literal_entries(es@), n as nat))
                && i + n <= s.len(),
            None => parse_fields(s@, i as int) is None,
        },
    decreases s.len() - i,
{
    let mut acc: Vec<(String, LuaValue)> = Vec::new();
    let mut j = i;
    assert(compose_fields(literal_entries(acc@), 0, parse_fields(s@, j as int)) =~= parse_fields(
        s@,
        j as int,
    )) by {
        match parse_fields(s@, j as int) {
            Some((t, m)) => {
                assert(literal_entries(acc@) + t =~= t);
            },
            None => {},
        }
    }
    loop
        invariant
            i <= j <= s.len(),
            parse_fields(s@, i as int) == compose_fields(
                literal_entries(acc@),
                j - i,
                parse_fields(s@, j as int),
            ),
        decreases s.len() - j,
    {
        if j >= s.len() {
            return None;
        }
        if s[j] == '}' {
            assert(literal_entries(acc@) + Seq::<(Seq<char>, Literal)>::empty() =~= literal_entries(
                acc@,
            ));
            return Some((acc, j + 1 - i));
        }
        let nl = name_len_at(s, j);
        let k = j + nl;
        let eq = k + ws_len_at(s, k);
        if nl == 0 || eq >= s.len() || s[eq] != '=' {
            return None;
        }
        let m = eq + 1 + ws_len_at(s, eq + 1);
        if m >= s.len() {
            return None;
        }
        let (v, vl) = match value_at(s, m) {
            None => {
                return None;
            },
            Some(x) => x,
        };
        let p = m + vl + ws_len_at(s, m + vl);
        if p >= s.len() {
            return None;
        }
        let key_chars = crate::text::copy_range(s, j, k);
        let key = crate::text::string_of(&key_chars);
        let ghost field = (s@.subrange(j as int, k as int), literal_of(v));
        let ghost before = literal_entries(acc@);
        proof {
            let pushed = acc@.push((key, v));
            assert(pushed.drop_last() =~= acc@);
            assert(literal_entries(pushed) == before.push(field));
        }
        if s[p] == '}' {
            acc.push((key, v));
            assert(before + seq![field] =~= before.push(field));
            return Some((acc, p + 1 - i));
        } else if s[p] == ',' || s[p] == ';' {
            let q = p + 1 + ws_len_at(s, p + 1);
            if q >= s.len() {
                return None;
            }
            proof {
                match parse_fields(s@, q as int) {
                    Some((t, n)) => {
                        assert(before + (seq![field] + t) =~= before.push(field) + t);
                    },
                    None => {},
                }
            }
            acc.push((key, v));
            j = q;
        } else {
            return None;
        }
    }
}

/// Parses a text that assigns one value to one name (`name = value`, blanks
/// and `--` comments allowed around the parts).
pub fn parse_literal_assignment(text: &str) -> (r: Option<(String, LuaValue)>)
    ensures
        match r {
            Some((name, v)) => parse_assignment(text@) == Some((name@, literal_of(v))),
            None => parse_assignment(text@) is None,
        },
{
    reveal(parse_assignment);
    let s = crate::text::chars_of(text);
    let i = ws_len_at(&s, 0);
    let nl = name_len_at(&s, i);
    let j = i + nl;
    let k = j + ws_len_at(&s, j);
    if nl == 0 || k >= s.len() || s[k] != '=' {
        return None;
    }
    let m = k + 1 + ws_len_at(&s, k + 1);
    match value_at(&s, m) {
        None => None,
        Some((v, vl)) => {
            if m + vl + ws_len_at(&s, m + vl) == s.len() {
                let name = crate::text::copy_range(&s, i, j);
                Some((crate::text::string_of(&name), v))
            } else {
                None
            }
        },
    }
}


proof fn lemma_escaped_cons(c: char, v: Seq<char>)
    ensures
        escaped(seq![c] + v) == escape_char(c) + escaped(v),
    decreases v.len(),
{
    let w = seq![c] + v;
    if v.len() == 0 {
        assert(w =~= seq![c]);
        assert(w.drop_last() =~= Seq::<char>::empty());
        assert(escaped(Seq::<char>::empty()) == Seq::<char>::empty());
        assert(escape_char(c) + escaped(v) =~= escape_char(c));
    } else {
        lemma_escaped_cons(c, v.drop_last());
        assert(w.drop_last() =~= seq![c] + v.drop_last());
        assert(w.last() == v.last());
        assert(escape_char(c) + escaped(v.drop_last()) + escape_char(v.last()) =~= escape_char(c)
            + escaped(v));
    }
}

/// The closing part of a double-quoted literal, as the serializer writes it,
/// reads back as the same characters.
proof fn lemma_string_rest_escaped(s: Seq<char>, i: int, v: Seq<char>)
    requires
        0 <= i,
        i + escaped(v).len() + 1 <= s.len(),
        s.subrange(i, i + escaped(v).len() + 1) == escaped(v) + quote(),
    ensures
        string_rest(s, i, '"') == Some((v, (escaped(v).len() + 1) as nat)),
    decreases v.len(),
{
    let t = s.subrange(i, i + escaped(v).len() + 1);
    if v.len() == 0 {
        assert(escaped(v) == Seq::<char>::empty());
        assert(t[0] == s[i]);
        assert(s[i] == '"');
        assert(v =~= Seq::<char>::empty());
    } else {
        let c = v[0];
        let rest = v.subrange(1, v.len() as int);
        assert(v =~= seq![c] + rest);
        lemma_escaped_cons(c, rest);
        let e = escape_char(c);
        let er = escaped(rest);
        assert(escaped(v) == e + er);
        assert(t[0] == s[i]);
        assert(s.subrange(i + e.len(), i + e.len() + er.len() + 1) =~= er + quote()) by {
            assert forall|k: int| 0 <= k < er.len() + 1 implies #[trigger] s.subrange(
                i + e.len(),
                i + e.len() + er.len() + 1,
            )[k] == (er + quote())[k] by {
                assert(t[e.len() + k] == s[i + e.len() + k]);
            }
        }
        lemma_string_rest_escaped(s, i + e.len(), rest);
        if c == '"' || c == '\\' || c == '\n' || c == '\r' {
            assert(t[1] == s[i + 1]);
            assert(seq![c] + rest =~= v);
        } else {
            assert(seq![s[i]] + rest =~= v);
        }
    }
}

/// A double-quoted literal as the serializer writes it reads back as the
/// same characters.
pub proof fn lemma_parse_quoted(s: Seq<char>, i: int, v: Seq<char>)
    requires
        0 <= i,
        i + quoted(v).len() <= s.len(),
        s.subrange(i, i + quoted(v).len()) == quoted(v),
    ensures
        parse_string(s, i) == Some((v, quoted(v).len())),
{
    let q = quoted(v);
    assert(q[0] == s[i]) by {
        assert(s.subrange(i, i + q.len())[0] == s[i]);
    }
    assert(s.subrange(i + 1, i + 1 + escaped(v).len() + 1) =~= escaped(v) + quote()) by {
        assert forall|k: int| 0 <= k < escaped(v).len() + 1 implies #[trigger] s.subrange(
            i + 1,
            i + 1 + escaped(v).len() + 1,
        )[k] == (escaped(v) + quote())[k] by {
            assert(s.subrange(i, i + q.len())[1 + k] == s[i + 1 + k]);
        }
    }
    lemma_string_rest_escaped(s, i + 1, v);
}

/// A name: a letter or `_`, then letters, digits or `_`.
pub open spec fn is_name(w: Seq<char>) -> bool {
    &&& w.len() >= 1
    &&& is_name_start(w[0])
    &&& forall|k: int| 0 <= k < w.len() ==> is_name_char(#[trigger] w[k])
}

proof fn lemma_name_rest_len(s: Seq<char>, i: int, end: int)
    requires
        0 <= i <= end < s.len(),
        forall|k: int| i <= k < end ==> is_name_char(#[trigger] s[k]),
        !is_name_char(s[end]),
    ensures
        name_rest_len(s, i) == end - i,
    decreases end - i,
{
    if i < end {
        lemma_name_rest_len(s, i + 1, end);
    }
}

/// A name followed by a character that cannot continue it has its own length.
pub proof fn lemma_name_len(s: Seq<char>, i: int, w: Seq<char>)
    requires
        0 <= i,
        i + w.len() < s.len(),
        s.subrange(i, i + w.len()) == w,
        is_name(w),
        !is_name_char(s[i + w.len()]),
    ensures
        name_len(s, i) == w.len(),
{
    assert forall|k: int| i + 1 <= k < i + w.len() implies is_name_char(#[trigger] s[k]) by {
        assert(s.subrange(i, i + w.len())[k - i] == s[k]);
    }
    assert(s.subrange(i, i + w.len())[0] == s[i]);
    lemma_name_rest_len(s, i + 1, i + w.len());
}

pub proof fn lemma_join_head(p: Seq<Seq<char>>, sep: Seq<char>)
    requires
        p.len() >= 2,
    ensures
        join(p, sep) == p[0] + sep + join(p.drop_first(), sep),
    decreases p.len(),
{
    if p.len() == 2 {
        assert(p.drop_last() =~= seq![p[0]]);
        assert(p.drop_first() =~= seq![p[1]]);
        assert(join(p.drop_last(), sep) == p[0]);
        assert(join(p.drop_first(), sep) == p[1]);
        assert(join(p, sep) == join(p.drop_last(), sep) + sep + p.last());
    } else {
        lemma_join_head(p.drop_last(), sep);
        let d = p.drop_first();
        assert(p.drop_last().drop_first() =~= d.drop_last());
        assert(d.last() == p.last());
        assert(p.drop_last()[0] == p[0]);
        assert(join(d, sep) == join(d.drop_last(), sep) + sep + d.last());
        assert(join(p, sep) == join(p.drop_last(), sep) + sep + p.last());
        assert(p[0] + sep + join(d.drop_last(), sep) + sep + p.last() =~= p[0] + sep + (join(
            d.drop_last(),
            sep,
        ) + sep + p.last()));
    }
}

/// `name = "value"` for each pair, in order.
pub open spec fn string_assignments(names: Seq<Seq<char>>, vals: Seq<Seq<char>>) -> Seq<Seq<char>> {
    Seq::new(names.len(), |t: int| names[t] + assign_sep() + quoted(vals[t]))
}

pub open spec fn string_pairs(names: Seq<Seq<char>>, vals: Seq<Seq<char>>) -> Seq<(Seq<char>, Literal)> {
    Seq::new(names.len(), |t: int| (names[t], Literal::Str(vals[t])))
}

/// The fields of a table of strings, as the serializer writes them, read back
/// as the same names and strings.
pub proof fn lemma_parse_string_fields(
    s: Seq<char>,
    i: int,
    names: Seq<Seq<char>>,
    vals: Seq<Seq<char>>,
)
    requires
        names.len() == vals.len(),
        names.len() >= 1,
        forall|t: int| 0 <= t < names.len() ==> is_name(#[trigger] names[t]),
        0 <= i,
        i + join(string_assignments(names, vals), entry_sep()).len() + 1 <= s.len(),
        s.subrange(i, i + join(string_assignments(names, vals), entry_sep()).len() + 1) == join(
            string_assignments(names, vals),
            entry_sep(),
        ) + seq!['}'],
    ensures
        parse_fields(s, i) == Some(
            (
                string_pairs(names, vals),
                (join(string_assignments(names, vals), entry_sep()).len() + 1) as nat,
            ),
        ),
    decreases names.len(),
{
    let pieces = string_assignments(names, vals);
    let body = join(pieces, entry_sep());
    let t = body + seq!['}'];
    let w = names[0];
    let v = vals[0];
    let a: int = w.len() as int;
    let first = pieces[0];
    let fl: int = first.len() as int;
    assert(first == w + assign_sep() + quoted(v));
    let rest_text: Seq<char> = if names.len() == 1 {
        seq!['}']
    } else {
        entry_sep() + join(pieces.drop_first(), entry_sep()) + seq!['}']
    };
    if names.len() == 1 {
        assert(body == first);
    } else {
        lemma_join_head(pieces, entry_sep());
    }
    assert(t =~= first + rest_text);
    let sub = s.subrange(i, i + t.len());
    assert forall|k: int| 0 <= k < t.len() implies #[trigger] s[i + k] == t[k] by {
        assert(sub[k] == s[i + k]);
    }
    // the name
    assert(s.subrange(i, i + a) =~= w) by {
        assert forall|k: int| 0 <= k < a implies #[trigger] s.subrange(i, i + a)[k] == w[k] by {
            assert(s[i + k] == t[k]);
        }
    }
    assert(s[i + a] == t[a]);
    assert(is_name(w));
    lemma_name_len(s, i, w);
    let j = i + a;
    // ` = `
    assert(s[j] == ' ' && s[j + 1] == '=' && s[j + 2] == ' ') by {
        assert(s[i + a] == t[a]);
        assert(s[i + a + 1] == t[a + 1]);
        assert(s[i + a + 2] == t[a + 2]);
    }
    assert(ws_len(s, j + 1) == 0);
    assert(ws_len(s, j) == 1);
    let eq = j + 1;
    let m = j + 3;
    let qv = quoted(v);
    assert(s[m] == '"') by {
        assert(s[i + a + 3] == t[a + 3]);
    }
    assert(ws_len(s, m) == 0);
    assert(ws_len(s, eq + 1) == 1);
    assert(s.subrange(m, m + qv.len()) =~= qv) by {
        assert forall|k: int| 0 <= k < qv.len() implies #[trigger] s.subrange(m, m + qv.len())[k]
            == qv[k] by {
            assert(s[i + a + 3 + k] == t[a + 3 + k]);
        }
    }
    lemma_parse_quoted(s, m, v);
    assert(parse_value(s, m) == Some((Literal::Str(v), qv.len())));
    let p = m + qv.len();
    assert(p == i + first.len());
    assert(s[p] == rest_text[0]) by {
        assert(s[i + first.len()] == t[first.len() as int]);
    }
    assert(ws_len(s, p) == 0);
    assert(s.subrange(i, j) == w);
    if names.len() == 1 {
        assert(string_pairs(names, vals) =~= seq![(w, Literal::Str(v))]);
    } else {
        let q = p + 2;
        assert(s[p + 1] == ' ') by {
            assert(s[i + first.len() + 1] == t[fl + 1]);
        }
        let names2 = names.drop_first();
        let vals2 = vals.drop_first();
        assert(string_assignments(names2, vals2) =~= pieces.drop_first());
        let body2 = join(pieces.drop_first(), entry_sep());
        let t2 = body2 + seq!['}'];
        assert(is_name(names2[0]));
        assert(s[q] == names2[0][0]) by {
            assert(s[i + first.len() + 2] == t[fl + 2]);
            lemma_join_first_char(pieces.drop_first(), entry_sep());
            assert(pieces.drop_first()[0] == names2[0] + assign_sep() + quoted(vals2[0]));
        }
        assert(ws_len(s, q) == 0);
        assert(ws_len(s, p + 1) == 1);
        assert(s.subrange(q, q + t2.len()) =~= t2) by {
            assert forall|k: int| 0 <= k < t2.len() implies #[trigger] s.subrange(
                q,
                q + t2.len(),
            )[k] == t2[k] by {
                assert(s[i + first.len() + 2 + k] == t[fl + 2 + k]);
            }
        }
        assert forall|u: int| 0 <= u < names2.len() implies is_name(#[trigger] names2[u]) by {
            assert(names2[u] == names[u + 1]);
        }
        lemma_parse_string_fields(s, q, names2, vals2);
        assert(string_pairs(names, vals) =~= seq![(w, Literal::Str(v))] + string_pairs(
            names2,
            vals2,
        ));
    }
}

pub proof fn lemma_join_first_char(p: Seq<Seq<char>>, sep: Seq<char>)
    requires
        p.len() >= 1,
        p[0].len() >= 1,
    ensures
        join(p, sep).len() >= 1,
        join(p, sep)[0] == p[0][0],
    decreases p.len(),
{
    if p.len() > 1 {
        lemma_join_first_char(p.drop_last(), sep);
    }
}

} // verus!
