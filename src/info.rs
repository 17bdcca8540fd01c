use vstd::prelude::*;
use crate::table::{
    LuaTable, LuaValue, name_table, serialize_table, table_text, assign_sep, entry_sep, join, quoted,
    rendered_entries, value_text,
};
use crate::parse::{
    Literal, literal_entries, literal_of, parse_assignment, parse_literal_assignment, parse_value,
    parse_fields, ws_len, is_name, is_name_char, string_assignments,
    string_pairs, lemma_parse_string_fields, lemma_name_len,
};
use crate::version::{
    BuildIncrement, increment_build_version, short_version, version_numbers, version_text,
    short_version_text, incremented,
};

verus! {

/// The versioned identity of a plugin. `version` is `major.minor` of
/// `build_version`; `id` identifies the plugin across builds.
#[derive(Debug)]
pub struct PluginInfo {
    pub name: String,
    pub version: String,
    pub build_version: String,
    pub id: String,
    pub author: String,
    pub description: String,
}

/// Relies on `uuid::Uuid::new_v4` and its `Display`: a random identifier in the
/// hyphenated form of 36 characters.
#[verifier::external_body]
fn fresh_id() -> (r: String)
    ensures
        r@.len() == 36,
{
    uuid::Uuid::new_v4().to_string()
}

/// Names of the fields, as they appear in the metadata file.
pub open spec fn field_names() -> Seq<Seq<char>> {
    seq!["Name"@, "Version"@, "BuildVersion"@, "Id"@, "Author"@, "Description"@]
}

pub open spec fn is_field_name(f: Seq<char>) -> bool {
    field_names().contains(f)
}

/// Why a metadata text does not give a record.
#[derive(Debug, PartialEq, Eq)]
pub enum MetadataError {
    /// The text is not a single `name = value` assignment of literals.
    Syntax,
    /// The text assigns something other than a table to `PluginInfo`, or
    /// assigns to another name.
    TableNotFound,
    /// The table lacks the named field, or holds something other than a string in it.
    MissingField(String),
}

/// What a `MetadataError` reports, with the field name as a sequence.
pub enum MetadataFault {
    Syntax,
    TableNotFound,
    MissingField(Seq<char>),
}

impl MetadataError {
    pub open spec fn fault(&self) -> MetadataFault {
        match self {
            MetadataError::Syntax => MetadataFault::Syntax,
            MetadataError::TableNotFound => MetadataFault::TableNotFound,
            MetadataError::MissingField(f) => MetadataFault::MissingField(f@),
        }
    }
}

/// Index of the first pair with key `k`, or -1.
pub open spec fn literal_position(es: Seq<(Seq<char>, Literal)>, k: Seq<char>) -> int
    decreases es.len(),
{
    if es.len() == 0 {
        -1
    } else {
        let p = literal_position(es.drop_last(), k);
        if p >= 0 {
            p
        } else if es.last().0 == k {
            es.len() - 1
        } else {
            -1
        }
    }
}

/// The string under key `k`: the first pair with that key, when it holds a string.
pub open spec fn string_field(es: Seq<(Seq<char>, Literal)>, k: Seq<char>) -> Option<Seq<char>> {
    let p = literal_position(es, k);
    if p >= 0 && es[p].1 is Str {
        Some(es[p].1->Str_0)
    } else {
        None
    }
}

/// The first `n` fields of a record, in the order of `field_names`, read from
/// a table; the first one missing is the error.
pub open spec fn record_fields(es: Seq<(Seq<char>, Literal)>, n: int) -> Result<
    Seq<Seq<char>>,
    MetadataFault,
>
    decreases n,
{
    if n <= 0 {
        Ok(Seq::empty())
    } else {
        match record_fields(es, n - 1) {
            Err(e) => Err(e),
            Ok(vs) => match string_field(es, field_names()[n - 1]) {
                Some(v) => Ok(vs.push(v)),
                None => Err(MetadataFault::MissingField(field_names()[n - 1])),
            },
        }
    }
}

/// The field values of the record that a metadata text holds, in the order of
/// `field_names`.
pub open spec fn record_from_source(text: Seq<char>) -> Result<Seq<Seq<char>>, MetadataFault> {
    match parse_assignment(text) {
        None => Err(MetadataFault::Syntax),
        Some((name, v)) => if name != "PluginInfo"@ {
            Err(MetadataFault::TableNotFound)
        } else {
            match v {
                Literal::Table(es) => record_fields(es, 6),
                _ => Err(MetadataFault::TableNotFound),
            }
        },
    }
}

proof fn lemma_literal_entries(es: Seq<(String, LuaValue)>)
    ensures
        literal_entries(es).len() == es.len(),
        forall|i: int|
            0 <= i < es.len() ==> #[trigger] literal_entries(es)[i] == (es[i].0@, literal_of(es[i].1)),
    decreases es.len(),
{
    if es.len() > 0 {
        lemma_literal_entries(es.drop_last());
        assert forall|i: int| 0 <= i < es.len() - 1 implies es[i] == #[trigger] es.drop_last()[i] by {}
    }
}

proof fn lemma_positions_agree(es: Seq<(String, LuaValue)>, k: Seq<char>)
    ensures
        literal_position(literal_entries(es), k) == crate::table::key_position(es, k),
    decreases es.len(),
{
    if es.len() > 0 {
        lemma_positions_agree(es.drop_last(), k);
        lemma_literal_entries(es);
        assert(literal_entries(es).drop_last() =~= literal_entries(es.drop_last()));
    }
}

/// The string value under key `name` in `t`, read as `string_field` does.
fn table_string(t: &LuaTable, name: &str) -> (r: Option<String>)
    ensures
        match r {
            Some(x) => string_field(literal_entries(t.entries@), name@) == Some(x@),
            None => string_field(literal_entries(t.entries@), name@) is None,
        },
{
    proof {
        lemma_positions_agree(t.entries@, name@);
        lemma_literal_entries(t.entries@);
        crate::table::lemma_key_position(t.entries@, name@);
    }
    let ghost p = crate::table::key_position(t.entries@, name@);
    match t.get(name) {
        Some(LuaValue::Str(x)) => {
            assert(literal_entries(t.entries@)[p] == (t.entries@[p].0@, literal_of(t.entries@[p].1)));
            Some(x.clone())
        },
        Some(v) => {
            assert(literal_entries(t.entries@)[p] == (t.entries@[p].0@, literal_of(t.entries@[p].1)));
            None
        },
        None => None,
    }
}

impl PluginInfo {
    /// The field values, in the order of `field_names`.
    pub open spec fn field_values(&self) -> Seq<Seq<char>> {
        seq![self.name@, self.version@, self.build_version@, self.id@, self.author@, self.description@]
    }

    /// The value of the field named `f`.
    pub open spec fn field(&self, f: Seq<char>) -> Seq<char> {
        if f == "Name"@ {
            self.name@
        } else if f == "Version"@ {
            self.version@
        } else if f == "BuildVersion"@ {
            self.build_version@
        } else if f == "Id"@ {
            self.id@
        } else if f == "Author"@ {
            self.author@
        } else {
            self.description@
        }
    }

    /// A plugin at version `0.0` (build `0.0.0.0`) with a freshly generated id.
    pub fn new(name: String, author: String, description: String) -> (r: PluginInfo)
        ensures
            r.name@ == name@,
            r.author@ == author@,
            r.description@ == description@,
            r.build_version@ == version_text(seq![0nat, 0, 0, 0]),
            r.version@ == short_version_text(seq![0nat, 0, 0, 0]),
            r.id@.len() == 36,
    {
        let base = vec!['0', '.', '0', '.', '0', '.', '0'];
        let short = vec!['0', '.', '0'];
        proof {
            assert(crate::version::decimal(0) =~= seq!['0']);
            assert(base@ =~= version_text(seq![0nat, 0, 0, 0]));
            assert(short@ =~= short_version_text(seq![0nat, 0, 0, 0]));
        }
        PluginInfo {
            name,
            version: crate::text::string_of(&short),
            build_version: crate::text::string_of(&base),
            id: fresh_id(),
            author,
            description,
        }
    }

    /// The value of the field named `field`.
    pub fn get_field(&self, field: &str) -> (r: String)
        requires
            is_field_name(field@),
        ensures
            r@ == self.field(field@),
    {
        if crate::text::same_text(field, "Name") {
            self.name.clone()
        } else if crate::text::same_text(field, "Version") {
            self.version.clone()
        } else if crate::text::same_text(field, "BuildVersion") {
            self.build_version.clone()
        } else if crate::text::same_text(field, "Id") {
            self.id.clone()
        } else if crate::text::same_text(field, "Author") {
            self.author.clone()
        } else {
            proof {
                assert(field_names()[5] == "Description"@);
                assert(field@ == "Description"@);
            }
            self.description.clone()
        }
    }

    /// Sets the field named `field` to `value`; returns whether such a field
    /// exists (the record is left as it was when it does not).
    pub fn update_field(&mut self, field: &str, value: String) -> (found: bool)
        ensures
            found == is_field_name(field@),
            found ==> final(self).field(field@) == value@,
            forall|f: Seq<char>|
                f != field@ && is_field_name(f) ==> #[trigger] final(self).field(f) == old(self).field(f),
            !found ==> final(self).field_values() == old(self).field_values(),
    {
        proof {
            assert(field_names()[0] == "Name"@);
            assert(field_names()[1] == "Version"@);
            assert(field_names()[2] == "BuildVersion"@);
            assert(field_names()[3] == "Id"@);
            assert(field_names()[4] == "Author"@);
            assert(field_names()[5] == "Description"@);
        }
        if crate::text::same_text(field, "Name") {
            self.name = value;
        } else if crate::text::same_text(field, "Version") {
            self.version = value;
        } else if crate::text::same_text(field, "BuildVersion") {
            self.build_version = value;
        } else if crate::text::same_text(field, "Id") {
            self.id = value;
        } else if crate::text::same_text(field, "Author") {
            self.author = value;
        } else if crate::text::same_text(field, "Description") {
            self.description = value;
        } else {
            return false;
        }
        true
    }

    /// `version` raised at `increment`: the chosen component grows by one,
    /// lower components become zero, higher ones stay (see `increment_build_version`).
    pub fn update_build_version(version: String, increment: BuildIncrement) -> (r: String)
        ensures
            r@ == version_text(incremented(version_numbers(version@), increment.position())),
    {
        increment_build_version(version.as_str(), increment)
    }

    /// Sets `version` to `major.minor` of `build_version`.
    pub fn sync_version_with_build_version(&mut self)
        ensures
            final(self).version@ == short_version_text(version_numbers(old(self).build_version@)),
            final(self).build_version == old(self).build_version,
            final(self).name == old(self).name,
            final(self).id == old(self).id,
            final(self).author == old(self).author,
            final(self).description == old(self).description,
    {
        self.version = short_version(self.build_version.as_str());
    }

    /// The record after a build at level `increment`: `build_version` is raised,
    /// `version` follows it, and the identity fields are kept.
    pub fn update_version(self, increment: BuildIncrement) -> (r: PluginInfo)
        ensures
            r.build_version@ == version_text(
                incremented(version_numbers(self.build_version@), increment.position()),
            ),
            r.version@ == short_version_text(
                incremented(version_numbers(self.build_version@), increment.position()),
            ),
            r.id == self.id,
            r.name == self.name,
            r.author == self.author,
            r.description == self.description,
    {
        let mut info = self;
        let ghost w = incremented(version_numbers(info.build_version@), increment.position());
        info.build_version = increment_build_version(info.build_version.as_str(), increment);
        info.sync_version_with_build_version();
        proof {
            crate::version::lemma_version_text_roundtrip(w);
        }
        info
    }

    /// The record as a table: one string entry per field, keyed by its name,
    /// in the order of `field_names`.
    pub fn to_lua_table(&self) -> (r: LuaTable)
        ensures
            r.entries@.len() == 6,
            forall|i: int|
                0 <= i < 6 ==> (#[trigger] r.entries@[i]).0@ == field_names()[i]
                    && r.entries@[i].1 == LuaValue::Str(r.entries@[i].1->Str_0)
                    && (r.entries@[i].1->Str_0)@ == self.field_values()[i],
    {
        let mut entries: Vec<(String, LuaValue)> = Vec::new();
        entries.push((String::from_str("Name"), LuaValue::Str(self.name.clone())));
        entries.push((String::from_str("Version"), LuaValue::Str(self.version.clone())));
        entries.push(
            (String::from_str("BuildVersion"), LuaValue::Str(self.build_version.clone())),
        );
        entries.push((String::from_str("Id"), LuaValue::Str(self.id.clone())));
        entries.push((String::from_str("Author"), LuaValue::Str(self.author.clone())));
        entries.push(
            (String::from_str("Description"), LuaValue::Str(self.description.clone())),
        );
        LuaTable { entries }
    }

    /// `Field = "value"` for each field, in the order of `field_names`.
    pub open spec fn field_assignments(&self) -> Seq<Seq<char>> {
        Seq::new(6, |i: int| field_names()[i] + assign_sep() + quoted(self.field_values()[i]))
    }

    /// The metadata file's text: `PluginInfo = {Name = "...", Version = "...", ...}`.
    pub open spec fn source_text(&self) -> Seq<char> {
        "PluginInfo"@ + assign_sep() + seq!['{'] + join(self.field_assignments(), entry_sep())
            + seq!['}']
    }

    proof fn lemma_table_text(&self, t: LuaTable)
        requires
            t.entries@.len() == 6,
            forall|i: int|
                0 <= i < 6 ==> (#[trigger] t.entries@[i]).0@ == field_names()[i]
                    && t.entries@[i].1 == LuaValue::Str(t.entries@[i].1->Str_0)
                    && (t.entries@[i].1->Str_0)@ == self.field_values()[i],
        ensures
            table_text(t) == seq!['{'] + join(self.field_assignments(), entry_sep()) + seq!['}'],
    {
        let es = t.entries@;
        let fa = self.field_assignments();
        assert forall|k: int| 0 <= k <= 6 implies rendered_entries(#[trigger] es.subrange(0, k))
            == fa.subrange(0, k) by {
            lemma_rendered_prefix(self, t, k);
        }
        assert(es.subrange(0, 6) =~= es);
        assert(fa.subrange(0, 6) =~= fa);
    }

    /// The record that a table holds: one string per field, under the field's name.
    pub fn from_table(t: &LuaTable) -> (r: Result<PluginInfo, MetadataError>)
        ensures
            match r {
                Ok(info) => record_fields(literal_entries(t.entries@), 6) == Ok::<
                    Seq<Seq<char>>,
                    MetadataFault,
                >(info.field_values()),
                Err(e) => record_fields(literal_entries(t.entries@), 6) == Err::<
                    Seq<Seq<char>>,
                    MetadataFault,
                >(e.fault()),
            },
    {
        let ghost es = literal_entries(t.entries@);
        proof {
            assert(field_names()[0] == "Name"@);
            assert(field_names()[1] == "Version"@);
            assert(field_names()[2] == "BuildVersion"@);
            assert(field_names()[3] == "Id"@);
            assert(field_names()[4] == "Author"@);
            assert(field_names()[5] == "Description"@);
            assert(record_fields(es, 0) == Ok::<Seq<Seq<char>>, MetadataFault>(Seq::empty()));
            reveal_with_fuel(record_fields, 7);
        }
        let name = match table_string(t, "Name") {
            Some(x) => x,
            None => {
                return Err(MetadataError::MissingField(String::from_str("Name")));
            },
        };
        let version = match table_string(t, "Version") {
            Some(x) => x,
            None => {
                return Err(MetadataError::MissingField(String::from_str("Version")));
            },
        };
        let build_version = match table_string(t, "BuildVersion") {
            Some(x) => x,
            None => {
                return Err(MetadataError::MissingField(String::from_str("BuildVersion")));
            },
        };
        let id = match table_string(t, "Id") {
            Some(x) => x,
            None => {
                return Err(MetadataError::MissingField(String::from_str("Id")));
            },
        };
        let author = match table_string(t, "Author") {
            Some(x) => x,
            None => {
                return Err(MetadataError::MissingField(String::from_str("Author")));
            },
        };
        let description = match table_string(t, "Description") {
            Some(x) => x,
            None => {
                return Err(MetadataError::MissingField(String::from_str("Description")));
            },
        };
        let info = PluginInfo { name, version, build_version, id, author, description };
        let ghost vs = Seq::<Seq<char>>::empty().push(info.name@).push(info.version@).push(
            info.build_version@,
        ).push(info.id@).push(info.author@).push(info.description@);
        assert(record_fields(es, 6) == Ok::<Seq<Seq<char>>, MetadataFault>(vs));
        assert(vs =~= info.field_values());
        Ok(info)
    }

    /// The record that a metadata text holds: the text must assign a table to
    /// `PluginInfo`, with a string under each field name.
    pub fn from_lua_source(text: &str) -> (r: Result<PluginInfo, MetadataError>)
        ensures
            match r {
                Ok(info) => record_from_source(text@) == Ok::<Seq<Seq<char>>, MetadataFault>(
                    info.field_values(),
                ),
                Err(e) => record_from_source(text@) == Err::<Seq<Seq<char>>, MetadataFault>(
                    e.fault(),
                ),
            },
    {
        match parse_literal_assignment(text) {
            None => Err(MetadataError::Syntax),
            Some((name, v)) => {
                if !crate::text::same_text(name.as_str(), "PluginInfo") {
                    return Err(MetadataError::TableNotFound);
                }
                match v {
                    LuaValue::Table(t) => PluginInfo::from_table(&t),
                    _ => Err(MetadataError::TableNotFound),
                }
            },
        }
    }

    /// The metadata file's text: `PluginInfo = {Name = "...", Version = "...", ...}`.
    pub fn to_lua_source(&self) -> (r: String)
        ensures
            r@ == self.source_text(),
    {
        let t = self.to_lua_table();
        let body = serialize_table(&t);
        proof {
            self.lemma_table_text(t);
        }
        let r = name_table("PluginInfo", body.as_str());
        assert(r@ =~= self.source_text());
        r
    }
}


proof fn lemma_rendered_prefix(info: &PluginInfo, t: LuaTable, k: int)
    requires
        0 <= k <= 6,
        t.entries@.len() == 6,
        forall|i: int|
            0 <= i < 6 ==> (#[trigger] t.entries@[i]).0@ == field_names()[i]
                && t.entries@[i].1 == LuaValue::Str(t.entries@[i].1->Str_0)
                && (t.entries@[i].1->Str_0)@ == info.field_values()[i],
    ensures
        rendered_entries(t.entries@.subrange(0, k)) == info.field_assignments().subrange(0, k),
    decreases k,
{
    let es = t.entries@.subrange(0, k);
    let fa = info.field_assignments();
    if k == 0 {
        assert(fa.subrange(0, 0) =~= Seq::<Seq<char>>::empty());
    } else {
        lemma_rendered_prefix(info, t, k - 1);
        assert(es.drop_last() =~= t.entries@.subrange(0, k - 1));
        let e = t.entries@[k - 1];
        assert(es.last() == e);
        assert(value_text(e.1) == quoted(info.field_values()[k - 1]));
        assert(fa.subrange(0, k) =~= fa.subrange(0, k - 1).push(fa[k - 1]));
    }
}


proof fn lemma_literal_position(es: Seq<(Seq<char>, Literal)>, k: Seq<char>)
    ensures
        -1 <= literal_position(es, k) < es.len(),
        literal_position(es, k) >= 0 ==> es[literal_position(es, k)].0 == k,
        literal_position(es, k) < 0 ==> forall|j: int| 0 <= j < es.len() ==> (#[trigger] es[j]).0 != k,
    decreases es.len(),
{
    if es.len() > 0 {
        let d = es.drop_last();
        lemma_literal_position(d, k);
        if literal_position(es, k) < 0 {
            assert forall|j: int| 0 <= j < es.len() implies (#[trigger] es[j]).0 != k by {
                if j < es.len() - 1 {
                    assert(es[j] == d[j]);
                }
            }
        }
    }
}

proof fn lemma_field_names_are_names()
    ensures
        forall|t: int| 0 <= t < 6 ==> is_name(#[trigger] field_names()[t]),
        forall|a: int, b: int| 0 <= a < b < 6 ==> field_names()[a] != field_names()[b],
{
    reveal_strlit("Name");
    reveal_strlit("Version");
    reveal_strlit("BuildVersion");
    reveal_strlit("Id");
    reveal_strlit("Author");
    reveal_strlit("Description");
    let f = field_names();
    assert(f[0].len() == 4 && f[1].len() == 7 && f[2].len() == 12 && f[3].len() == 2 && f[4].len()
        == 6 && f[5].len() == 11);
    assert forall|t: int| 0 <= t < 6 implies is_name(#[trigger] f[t]) by {
        let w = f[t];
        assert forall|k: int| 0 <= k < w.len() implies is_name_char(#[trigger] w[k]) by {}
    }
}

#[verifier::rlimit(60)]
proof fn lemma_source_parses(info: PluginInfo)
    ensures
        parse_assignment(info.source_text()) == Some(
            ("PluginInfo"@, Literal::Table(string_pairs(field_names(), info.field_values()))),
        ),
{
    reveal(parse_assignment);
    reveal_strlit("PluginInfo");
    let names = field_names();
    let vals = info.field_values();
    let pieces = info.field_assignments();
    assert(pieces =~= string_assignments(names, vals));
    lemma_field_names_are_names();
    let body = join(pieces, entry_sep());
    let s = info.source_text();
    let head = "PluginInfo"@;
    let t = body + seq!['}'];
    let n: int = t.len() as int;
    assert(s =~= head + assign_sep() + seq!['{'] + t);
    assert(s.len() == 14 + n);
    assert(s.subrange(14, 14 + n) =~= t);
    lemma_parse_string_fields(s, 14, names, vals);
    let pairs = string_pairs(names, vals);
    assert(s.subrange(0, 10) =~= head);
    assert(is_name(head)) by {
        assert forall|k: int| 0 <= k < head.len() implies is_name_char(#[trigger] head[k]) by {}
    }
    assert(s[0] == 'P' && s[10] == ' ' && s[11] == '=' && s[12] == ' ' && s[13] == '{');
    assert(ws_len(s, 0) == 0);
    lemma_name_len(s, 0, head);
    assert(ws_len(s, 11) == 0);
    assert(ws_len(s, 10) == 1);
    assert(ws_len(s, 13) == 0);
    assert(ws_len(s, 12) == 1);
    assert(s[14] == t[0]);
    crate::parse::lemma_join_first_char(pieces, entry_sep());
    assert(ws_len(s, 14) == 0);
    assert(parse_fields(s, 14) == Some((pairs, n as nat)));
    assert(parse_value(s, 13) == Some((Literal::Table(pairs), (1 + n) as nat)));
    assert(ws_len(s, 14 + n) == 0);
}

proof fn lemma_pairs_fields(vals: Seq<Seq<char>>)
    requires
        vals.len() == 6,
    ensures
        record_fields(string_pairs(field_names(), vals), 6) == Ok::<Seq<Seq<char>>, MetadataFault>(
            vals,
        ),
{
    let names = field_names();
    let pairs = string_pairs(names, vals);
    lemma_field_names_are_names();
    assert forall|u: int| 0 <= u < 6 implies #[trigger] string_field(pairs, names[u]) == Some(
        vals[u],
    ) by {
        lemma_literal_position(pairs, names[u]);
        let p = literal_position(pairs, names[u]);
        assert(pairs[u].0 == names[u]);
        if p != u {
            assert(pairs[p].0 == names[p]);
        }
    }
    assert(string_field(pairs, names[0]) == Some(vals[0]));
    assert(string_field(pairs, names[1]) == Some(vals[1]));
    assert(string_field(pairs, names[2]) == Some(vals[2]));
    assert(string_field(pairs, names[3]) == Some(vals[3]));
    assert(string_field(pairs, names[4]) == Some(vals[4]));
    assert(string_field(pairs, names[5]) == Some(vals[5]));
    reveal_with_fuel(record_fields, 7);
    let vs = Seq::<Seq<char>>::empty().push(vals[0]).push(vals[1]).push(vals[2]).push(vals[3]).push(
        vals[4],
    ).push(vals[5]);
    assert(record_fields(pairs, 6) == Ok::<Seq<Seq<char>>, MetadataFault>(vs));
    assert(vs =~= vals);
}

/// Reading back the metadata text of a record gives the same field values.
pub proof fn lemma_metadata_roundtrip(info: PluginInfo)
    ensures
        record_from_source(info.source_text()) == Ok::<Seq<Seq<char>>, MetadataFault>(
            info.field_values(),
        ),
{
    lemma_source_parses(info);
    lemma_pairs_fields(info.field_values());
}

} // verus!
