use vstd::prelude::*;
use crate::version::decimal;

verus! {

broadcast use vstd::std_specs::vec::group_vec_axioms, vstd::seq::group_seq_axioms;

/// A value of the scripting language's literal syntax.
#[derive(Debug, PartialEq)]
pub enum LuaValue {
    Nil,
    Boolean(bool),
    Integer(i64),
    /// A floating-point number, held as its decimal text.
    Number(String),
    Str(String),
    Table(LuaTable),
    /// A value with no literal form (a function, for instance).
    Unsupported,
}

/// A table with string keys, kept in insertion order.
#[derive(Debug, PartialEq)]
pub struct LuaTable {
    pub entries: Vec<(String, LuaValue)>,
}

pub open spec fn quote() -> Seq<char> {
    seq!['"']
}

/// What a character becomes inside a double-quoted literal.
pub open spec fn escape_char(c: char) -> Seq<char> {
    if c == '"' {
        seq!['\\', '"']
    } else if c == '\\' {
        seq!['\\', '\\']
    } else if c == '\n' {
        seq!['\\', 'n']
    } else if c == '\r' {
        seq!['\\', 'r']
    } else {
        seq![c]
    }
}

pub open spec fn escaped(s: Seq<char>) -> Seq<char>
    decreases s.len(),
{
    if s.len() == 0 {
        Seq::empty()
    } else {
        escaped(s.drop_last()) + escape_char(s.last())
    }
}

/// A double-quoted string literal holding `s`.
pub open spec fn quoted(s: Seq<char>) -> Seq<char> {
    quote() + escaped(s) + quote()
}

/// Decimal notation of an integer, with a leading minus when negative.
pub open spec fn int_text(i: int) -> Seq<char> {
    if i < 0 {
        seq!['-'] + decimal((-i) as nat)
    } else {
        decimal(i as nat)
    }
}

pub open spec fn join(pieces: Seq<Seq<char>>, sep: Seq<char>) -> Seq<char>
    decreases pieces.len(),
{
    if pieces.len() == 0 {
        Seq::empty()
    } else if pieces.len() == 1 {
        pieces[0]
    } else {
        join(pieces.drop_last(), sep) + sep + pieces.last()
    }
}

pub open spec fn assign_sep() -> Seq<char> {
    seq![' ', '=', ' ']
}

pub open spec fn entry_sep() -> Seq<char> {
    seq![',', ' ']
}

/// `key = value` for each entry whose value is not nil, in order.
pub open spec fn rendered_entries(es: Seq<(String, LuaValue)>) -> Seq<Seq<char>>
    decreases es,
{
    if es.len() == 0 {
        Seq::empty()
    } else {
        let rest = rendered_entries(es.drop_last());
        let e = es.last();
        if e.1 is Nil {
            rest
        } else {
            rest.push(e.0@ + assign_sep() + value_text(e.1))
        }
    }
}

/// The literal text of a value.
pub open spec fn value_text(v: LuaValue) -> Seq<char>
    decreases v,
{
    match v {
        LuaValue::Nil => seq!['n', 'i', 'l'],
        LuaValue::Boolean(b) => if b {
            seq!['t', 'r', 'u', 'e']
        } else {
            seq!['f', 'a', 'l', 's', 'e']
        },
        LuaValue::Integer(i) => int_text(i as int),
        LuaValue::Number(t) => t@,
        LuaValue::Str(s) => quoted(s@),
        LuaValue::Table(t) => table_text(t),
        LuaValue::Unsupported => seq!['u', 'n', 's', 'u', 'p', 'p', 'o', 'r', 't', 'e', 'd'],
    }
}


/// The literal text of a table: `{k1 = v1, k2 = v2}`, nil entries left out.
pub open spec fn table_text(t: LuaTable) -> Seq<char>
    decreases t,
{
    seq!['{'] + join(rendered_entries(t.entries@), entry_sep()) + seq!['}']
}

/// Index of the first entry with key `k`, or -1.
pub open spec fn key_position(es: Seq<(String, LuaValue)>, k: Seq<char>) -> int
    decreases es.len(),
{
    if es.len() == 0 {
        -1
    } else {
        let p = key_position(es.drop_last(), k);
        if p >= 0 {
            p
        } else if es.last().0@ == k {
            es.len() - 1
        } else {
            -1
        }
    }
}

pub proof fn lemma_key_position(es: Seq<(String, LuaValue)>, k: Seq<char>)
    ensures
        -1 <= key_position(es, k) < es.len(),
        key_position(es, k) >= 0 ==> es[key_position(es, k)].0@ == k,
        key_position(es, k) >= 0 ==> forall|j: int|
            0 <= j < key_position(es, k) ==> (#[trigger] es[j]).0@ != k,
        key_position(es, k) < 0 ==> forall|j: int| 0 <= j < es.len() ==> (#[trigger] es[j]).0@ != k,
    decreases es.len(),
{
    if es.len() > 0 {
        let d = es.drop_last();
        lemma_key_position(d, k);
        let p = key_position(es, k);
        if p >= 0 {
            assert forall|j: int| 0 <= j < p implies (#[trigger] es[j]).0@ != k by {
                assert(es[j] == d[j]);
            }
        } else {
            assert forall|j: int| 0 <= j < es.len() implies (#[trigger] es[j]).0@ != k by {
                if j < es.len() - 1 {
                    assert(es[j] == d[j]);
                }
            }
        }
    }
}

/// The text `name = table`, which assigns a table to a global name.
pub fn name_table(table_name: &str, table: &str) -> (r: String)
    ensures
        r@ == table_name@ + assign_sep() + table@,
{
    let mut out = crate::text::chars_of(table_name);
    out.push(' ');
    out.push('=');
    out.push(' ');
    let body = crate::text::chars_of(table);
    crate::text::append_chars(&mut out, &body);
    assert(out@ =~= table_name@ + assign_sep() + table@);
    crate::text::string_of(&out)
}

fn digit_of(n: u64) -> (c: char)
    requires
        n < 10,
    ensures
        c == crate::version::digit_char(n as nat),
{
    match n {
        0 => '0',
        1 => '1',
        2 => '2',
        3 => '3',
        4 => '4',
        5 => '5',
        6 => '6',
        7 => '7',
        8 => '8',
        _ => '9',
    }
}

fn write_decimal(out: &mut Vec<char>, n: u64)
    ensures
        final(out)@ == old(out)@ + decimal(n as nat),
    decreases n,
{
    if n < 10 {
        out.push(digit_of(n));
        assert(decimal(n as nat) =~= seq![crate::version::digit_char(n as nat)]);
    } else {
        let ghost start = out@;
        write_decimal(out, n / 10);
        out.push(digit_of(n % 10));
        assert(out@ =~= start + decimal(n as nat));
    }
}

fn write_int(out: &mut Vec<char>, i: i64)
    ensures
        final(out)@ == old(out)@ + int_text(i as int),
{
    let ghost start = out@;
    if i < 0 {
        out.push('-');
        let m: u64 = if i == i64::MIN {
            9223372036854775808u64
        } else {
            (-i) as u64
        };
        write_decimal(out, m);
        assert(out@ =~= start + int_text(i as int));
    } else {
        write_decimal(out, i as u64);
    }
}

fn write_quoted(out: &mut Vec<char>, s: &String)
    ensures
        final(out)@ == old(out)@ + quoted(s@),
{
    let ghost start = out@;
    let cs = crate::text::chars_of(s.as_str());
    out.push('"');
    let mut i: usize = 0;
    while i < cs.len()
        invariant
            i <= cs.len(),
            out@ == start + quote() + escaped(cs@.subrange(0, i as int)),
        decreases cs.len() - i,
    {
        let c = cs[i];
        if c == '"' {
            out.push('\\');
            out.push('"');
        } else if c == '\\' {
            out.push('\\');
            out.push('\\');
        } else if c == '\n' {
            out.push('\\');
            out.push('n');
        } else if c == '\r' {
            out.push('\\');
            out.push('r');
        } else {
            out.push(c);
        }
        assert(cs@.subrange(0, i + 1).drop_last() =~= cs@.subrange(0, i as int));
        i = i + 1;
        assert(out@ =~= start + quote() + escaped(cs@.subrange(0, i as int)));
    }
    out.push('"');
    assert(cs@.subrange(0, cs.len() as int) =~= s@);
    assert(out@ =~= start + quoted(s@));
}

fn write_value(out: &mut Vec<char>, v: &LuaValue)
    ensures
        final(out)@ == old(out)@ + value_text(*v),
    decreases v,
{
    let ghost start = out@;
    match v {
        LuaValue::Nil => {
            out.push('n');
            out.push('i');
            out.push('l');
        },
        LuaValue::Boolean(b) => {
            if *b {
                out.push('t');
                out.push('r');
                out.push('u');
                out.push('e');
            } else {
                out.push('f');
                out.push('a');
                out.push('l');
                out.push('s');
                out.push('e');
            }
        },
        LuaValue::Integer(i) => write_int(out, *i),
        LuaValue::Number(t) => {
            let cs = crate::text::chars_of(t.as_str());
            crate::text::append_chars(out, &cs);
        },
        LuaValue::Str(s) => write_quoted(out, s),
        LuaValue::Table(t) => write_table(out, t),
        LuaValue::Unsupported => {
            let word = ['u', 'n', 's', 'u', 'p', 'p', 'o', 'r', 't', 'e', 'd'];
            let mut i: usize = 0;
            while i < 11
                invariant
                    i <= 11,
                    word@ == seq!['u', 'n', 's', 'u', 'p', 'p', 'o', 'r', 't', 'e', 'd'],
                    out@ == start + word@.subrange(0, i as int),
                decreases 11 - i,
            {
                out.push(word[i]);
                i = i + 1;
                assert(out@ =~= start + word@.subrange(0, i as int));
            }
        },
    }
    assert(out@ =~= start + value_text(*v));
}

fn write_table(out: &mut Vec<char>, t: &LuaTable)
    ensures
        final(out)@ == old(out)@ + table_text(*t),
    decreases t,
{
    let ghost start = out@;
    out.push('{');
    let mut any = false;
    let mut i: usize = 0;
    while i < t.entries.len()
        invariant
            i <= t.entries.len(),
            any == (rendered_entries(t.entries@.subrange(0, i as int)).len() > 0),
            out@ == start + seq!['{'] + join(
                rendered_entries(t.entries@.subrange(0, i as int)),
                entry_sep(),
            ),
        decreases t.entries.len() - i,
    {
        let ghost before = rendered_entries(t.entries@.subrange(0, i as int));
        assert(t.entries@.subrange(0, i + 1).drop_last() =~= t.entries@.subrange(0, i as int));
        assert(t.entries@.subrange(0, i + 1).last() == t.entries@[i as int]);
        let entry = &t.entries[i];
        match &entry.1 {
            LuaValue::Nil => {},
            _ => {
                if any {
                    out.push(',');
                    out.push(' ');
                }
                let key = crate::text::chars_of(entry.0.as_str());
                crate::text::append_chars(out, &key);
                out.push(' ');
                out.push('=');
                out.push(' ');
                assert(decreases_to!(t => t.entries));
                write_value(out, &entry.1);
                let ghost piece = entry.0@ + assign_sep() + value_text(entry.1);
                assert(join(before.push(piece), entry_sep()) =~= if before.len() == 0 {
                    piece
                } else {
                    join(before, entry_sep()) + entry_sep() + piece
                }) by {
                    assert(before.push(piece).drop_last() =~= before);
                }
                any = true;
            },
        }
        i = i + 1;
        assert(out@ =~= start + seq!['{'] + join(
            rendered_entries(t.entries@.subrange(0, i as int)),
            entry_sep(),
        ));
    }
    out.push('}');
    assert(t.entries@.subrange(0, t.entries.len() as int) =~= t.entries@);
    assert(out@ =~= start + table_text(*t));
}

/// The literal text of a value.
pub fn serialize_value(v: &LuaValue) -> (r: String)
    ensures
        r@ == value_text(*v),
{
    let mut out: Vec<char> = Vec::new();
    write_value(&mut out, v);
    assert(out@ =~= value_text(*v));
    crate::text::string_of(&out)
}

/// The literal text of a table: its non-nil entries as `key = value`, in
/// insertion order, separated by `, ` and enclosed in braces.
pub fn serialize_table(t: &LuaTable) -> (r: String)
    ensures
        r@ == table_text(*t),
{
    let mut out: Vec<char> = Vec::new();
    write_table(&mut out, t);
    assert(out@ =~= table_text(*t));
    crate::text::string_of(&out)
}

impl LuaTable {
    /// An empty table.
    pub fn new() -> (r: LuaTable)
        ensures
            r.entries@.len() == 0,
    {
        LuaTable { entries: Vec::new() }
    }

    /// Gives `key` the value `value`: the first entry with that key is replaced
    /// in place; without one, the entry goes at the end.
    pub fn set(&mut self, key: String, value: LuaValue)
        ensures
            ({
                let p = key_position(old(self).entries@, key@);
                final(self).entries@ == if p >= 0 {
                    old(self).entries@.update(p, (key, value))
                } else {
                    old(self).entries@.push((key, value))
                }
            }),
    {
        proof {
            lemma_key_position(self.entries@, key@);
        }
        let mut i: usize = 0;
        while i < self.entries.len()
            invariant
                i <= self.entries.len(),
                self.entries@ == old(self).entries@,
                forall|j: int| 0 <= j < i ==> (#[trigger] self.entries@[j]).0@ != key@,
            decreases self.entries.len() - i,
        {
            if self.entries[i].0 == key {
                proof {
                    lemma_key_position(self.entries@, key@);
                }
                self.entries.set(i, (key, value));
                return;
            }
            i = i + 1;
        }
        proof {
            lemma_key_position(self.entries@, key@);
        }
        self.entries.push((key, value));
    }

    /// The value of the first entry with key `key`.
    pub fn get(&self, key: &str) -> (r: Option<&LuaValue>)
        ensures
            ({
                let p = key_position(self.entries@, key@);
                match r {
                    Some(x) => p >= 0 && *x == self.entries@[p].1,
                    None => p < 0,
                }
            }),
    {
        proof {
            lemma_key_position(self.entries@, key@);
        }
        let mut i: usize = 0;
        while i < self.entries.len()
            invariant
                i <= self.entries.len(),
                forall|j: int| 0 <= j < i ==> (#[trigger] self.entries@[j]).0@ != key@,
            decreases self.entries.len() - i,
        {
            if crate::text::same_text(self.entries[i].0.as_str(), key) {
                proof {
                    lemma_key_position(self.entries@, key@);
                }
                return Some(&self.entries[i].1);
            }
            i = i + 1;
        }
        proof {
            lemma_key_position(self.entries@, key@);
        }
        None
    }
}

} // verus!
