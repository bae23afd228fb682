//! Project metadata read from a manifest: TOML, JSON or `KEY=VALUE` text.

use vstd::prelude::*;
use crate::text::{chars_of, range_equals, same_text, split_on, string_of, substring_of};

verus! {

/// Name, version and description of a project.
#[derive(Clone, Debug)]
pub struct ProjectConfig {
    pub name: String,
    pub version: String,
    pub description: String,
}

/// Metadata as (name, version, description).
pub type ConfigModel = (Seq<char>, Seq<char>, Seq<char>);

impl View for ProjectConfig {
    type V = ConfigModel;

    open spec fn view(&self) -> ConfigModel {
        (self.name@, self.version@, self.description@)
    }
}

pub open spec fn default_model() -> ConfigModel {
    ("Default Project Name"@, "1.0.0"@, "Default Project Description"@)
}

impl Default for ProjectConfig {
    fn default() -> (r: Self)
        ensures
            r@ == default_model(),
    {
        ProjectConfig {
            name: "Default Project Name".to_owned(),
            version: "1.0.0".to_owned(),
            description: "Default Project Description".to_owned(),
        }
    }
}

/// The string value that a JSON text holds under `key` of its top-level
/// object; `None` where the text does not parse, or holds no string there.
pub uninterp spec fn json_string_member(text: Seq<char>, key: Seq<char>) -> Option<Seq<char>>;

/// The string value that a TOML document holds under `key` of its table
/// `table`; `None` where the text does not parse, or holds no string there.
pub uninterp spec fn toml_string_member(text: Seq<char>, table: Seq<char>, key: Seq<char>) -> Option<
    Seq<char>,
>;

/// The string value that a TOML document holds under top-level `key`;
/// `None` where the text does not parse, or holds no string there.
pub uninterp spec fn toml_top_string(text: Seq<char>, key: Seq<char>) -> Option<Seq<char>>;

/// Whether a TOML document parses and holds a table under top-level `table`.
pub uninterp spec fn toml_table_present(text: Seq<char>, table: Seq<char>) -> bool;

/// Relies on `serde_json::from_str` into a `serde_json::Value`, then
/// `Value::get` and `Value::as_str`: the string under `key`, if any.
#[verifier::external_body]
fn json_member(text: &str, key: &str) -> (r: Option<String>)
    ensures
        match r {
            Some(s) => json_string_member(text@, key@) == Some(s@),
            None => json_string_member(text@, key@) is None,
        },
{
    let value: serde_json::Value = serde_json::from_str(text).ok()?;
    value.get(key).and_then(|v| v.as_str()).map(|s| s.to_string())
}

/// Relies on `toml::Table`'s `FromStr`, then `Table::get`, `Value::get`
/// and `Value::as_str`: the string under `table.key`, if any.
#[verifier::external_body]
fn toml_member(text: &str, table: &str, key: &str) -> (r: Option<String>)
    ensures
        match r {
            Some(s) => toml_string_member(text@, table@, key@) == Some(s@),
            None => toml_string_member(text@, table@, key@) is None,
        },
{
    let doc: toml::Table = text.parse().ok()?;
    doc.get(table)?.get(key).and_then(|v| v.as_str()).map(|s| s.to_string())
}

/// Relies on `toml::Table`'s `FromStr`, then `Table::get` and
/// `Value::as_str`: the string under top-level `key`, if any.
#[verifier::external_body]
fn toml_top_member(text: &str, key: &str) -> (r: Option<String>)
    ensures
        match r {
            Some(s) => toml_top_string(text@, key@) == Some(s@),
            None => toml_top_string(text@, key@) is None,
        },
{
    let doc: toml::Table = text.parse().ok()?;
    doc.get(key).and_then(|v| v.as_str()).map(|s| s.to_string())
}

/// Relies on `toml::Table`'s `FromStr`, then `Table::get` and
/// `Value::is_table`: whether the document has a table named `table`.
#[verifier::external_body]
fn toml_has_table(text: &str, table: &str) -> (r: bool)
    ensures
        r == toml_table_present(text@, table@),
{
    match text.parse::<toml::Table>() {
        Ok(doc) => doc.get(table).map_or(false, |v| v.is_table()),
        Err(_) => false,
    }
}

pub open spec fn or_else(v: Option<Seq<char>>, d: Seq<char>) -> Seq<char> {
    match v {
        Some(s) => s,
        None => d,
    }
}

/// Metadata from a JSON manifest: each key missing falls back to its default.
pub open spec fn json_model(text: Seq<char>) -> ConfigModel {
    (
        or_else(json_string_member(text, "name"@), default_model().0),
        or_else(json_string_member(text, "version"@), default_model().1),
        or_else(json_string_member(text, "description"@), default_model().2),
    )
}

/// One field of a TOML manifest. The document's shape decides where it is
/// read: from the `package` table where the document has one, else from
/// the top level; a missing field takes its default.
pub open spec fn toml_field(text: Seq<char>, key: Seq<char>, default: Seq<char>) -> Seq<char> {
    if toml_table_present(text, "package"@) {
        or_else(toml_string_member(text, "package"@, key), default)
    } else {
        or_else(toml_top_string(text, key), default)
    }
}

/// Metadata from a TOML manifest, key by key.
pub open spec fn toml_model(text: Seq<char>) -> ConfigModel {
    (
        toml_field(text, "name"@, default_model().0),
        toml_field(text, "version"@, default_model().1),
        toml_field(text, "description"@, default_model().2),
    )
}

/// Position of the first `=` in a line that holds one.
pub open spec fn first_eq(line: Seq<char>) -> int
    recommends
        line.contains('='),
{
    choose|i: int| 0 <= i < line.len() && line[i] == '=' && forall|j: int| 0 <= j < i ==> line[j] != '='
}

/// One `KEY=VALUE` line applied to `m`: the line is split at its first `=`;
/// a known key replaces its field, anything else leaves `m` as it is.
pub open spec fn apply_line(m: ConfigModel, line: Seq<char>) -> ConfigModel {
    if line.contains('=') {
        let key = line.subrange(0, first_eq(line));
        let value = line.subrange(first_eq(line) + 1, line.len() as int);
        if key == "name"@ {
            (value, m.1, m.2)
        } else if key == "version"@ {
            (m.0, value, m.2)
        } else if key == "description"@ {
            (m.0, m.1, value)
        } else {
            m
        }
    } else {
        m
    }
}

/// The lines applied in order to the default metadata.
pub open spec fn env_lines_model(lines: Seq<Seq<char>>) -> ConfigModel
    decreases lines.len(),
{
    if lines.len() == 0 {
        default_model()
    } else {
        apply_line(env_lines_model(lines.drop_last()), lines.last())
    }
}

pub open spec fn env_model(text: Seq<char>) -> ConfigModel {
    env_lines_model(split_on(text, '\n'))
}

/// What `parse_config` reads from `content` for a file of extension `extension`.
pub open spec fn config_model(content: Seq<char>, extension: Seq<char>) -> ConfigModel {
    if extension == "toml"@ {
        toml_model(content)
    } else if extension == "json"@ {
        json_model(content)
    } else if extension == "env"@ {
        env_model(content)
    } else {
        default_model()
    }
}

fn member_or_default(found: Option<String>, default: &str) -> (r: String)
    ensures
        r@ == match found {
            Some(s) => s@,
            None => default@,
        },
{
    match found {
        Some(s) => s,
        None => default.to_owned(),
    }
}

fn toml_field_value(content: &str, key: &str, default: &str) -> (r: String)
    ensures
        r@ == toml_field(content@, key@, default@),
{
    if toml_has_table(content, "package") {
        member_or_default(toml_member(content, "package", key), default)
    } else {
        member_or_default(toml_top_member(content, key), default)
    }
}

fn apply_env_line(cfg: &mut ProjectConfig, line: &Vec<char>)
    ensures
        final(cfg)@ == apply_line(old(cfg)@, line@),
{
    let mut k: usize = 0;
    while k < line.len() && line[k] != '='
        invariant
            k <= line@.len(),
            forall|j: int| 0 <= j < k ==> line@[j] != '=',
        decreases line.len() - k,
    {
        k += 1;
    }
    if k == line.len() {
        assert(!line@.contains('='));
        return;
    }
    assert(line@.contains('='));
    assert(first_eq(line@) == k) by {
        let f = first_eq(line@);
        assert(0 <= f < line@.len() && line@[f] == '=' && forall|j: int| 0 <= j < f ==> line@[j] != '=');
    }
    let value = substring_of(line, k + 1, line.len());
    if range_equals(line, 0, k, &chars_of("name")) {
        cfg.name = value;
    } else if range_equals(line, 0, k, &chars_of("version")) {
        cfg.version = value;
    } else if range_equals(line, 0, k, &chars_of("description")) {
        cfg.description = value;
    }
}

/// Reads `KEY=VALUE` lines; later lines win, unknown keys and lines without
/// `=` are passed over.
pub fn parse_env(content: &str) -> (r: ProjectConfig)
    ensures
        r@ == env_model(content@),
{
    let chars = chars_of(content);
    let mut cfg = ProjectConfig::default();
    let mut line: Vec<char> = Vec::new();
    let ghost mut done: Seq<Seq<char>> = Seq::empty();
    let mut i: usize = 0;
    proof {
        assert(chars@.take(0) =~= Seq::<char>::empty());
        assert(line@ =~= Seq::<char>::empty());
        assert(split_on(chars@.take(0), '\n') =~= done.push(line@));
    }
    while i < chars.len()
        invariant
            i <= chars@.len(),
            split_on(chars@.take(i as int), '\n') == done.push(line@),
            cfg@ == env_lines_model(done),
        decreases chars.len() - i,
    {
        let c = chars[i];
        proof {
            assert(chars@.take(i + 1).drop_last() =~= chars@.take(i as int));
            assert(chars@.take(i + 1).last() == c);
        }
        if c == '\n' {
            apply_env_line(&mut cfg, &line);
            proof {
                assert(done.push(line@).drop_last() =~= done);
                done = done.push(line@);
            }
            line = Vec::new();
            proof {
                assert(split_on(chars@.take(i + 1), '\n') =~= done.push(line@));
            }
        } else {
            line.push(c);
            proof {
                let prev = split_on(chars@.take(i as int), '\n');
                assert(prev.update(prev.len() - 1, prev.last().push(c)) =~= done.push(line@));
            }
        }
        i += 1;
    }
    apply_env_line(&mut cfg, &line);
    proof {
        assert(chars@.take(chars@.len() as int) =~= chars@);
        assert(done.push(line@).drop_last() =~= done);
    }
    cfg
}

/// Reads metadata from a manifest's text, by the file's extension: `toml`
/// (the `package` table), `json` (top-level keys) or `env` (`KEY=VALUE`
/// lines). Fields that are missing, or a text that does not parse, give the
/// defaults; any other extension gives the default metadata. A TOML field
/// is read from the `package` table where there is one, else from the top
/// level.
pub fn parse_config(content: &str, extension: &str) -> (r: ProjectConfig)
    ensures
        r@ == config_model(content@, extension@),
{
    if same_text(extension, "toml") {
        ProjectConfig {
            name: toml_field_value(content, "name", "Default Project Name"),
            version: toml_field_value(content, "version", "1.0.0"),
            description: toml_field_value(content, "description", "Default Project Description"),
        }
    } else if same_text(extension, "json") {
        ProjectConfig {
            name: member_or_default(json_member(content, "name"), "Default Project Name"),
            version: member_or_default(json_member(content, "version"), "1.0.0"),
            description: member_or_default(
                json_member(content, "description"),
                "Default Project Description",
            ),
        }
    } else if same_text(extension, "env") {
        parse_env(content)
    } else {
        ProjectConfig::default()
    }
}

/// Whether a file name has an extension in the sense of `Path::extension`:
/// a `.` past its first character.
pub open spec fn has_extension(name: Seq<char>) -> bool {
    exists|i: int| 0 < i < name.len() && name[i] == '.'
}

/// The extension of a manifest's file name, where it is one that
/// `parse_config` reads (`toml`, `json` or `env`).
pub open spec fn manifest_extension_model(name: Seq<char>) -> Option<Seq<char>> {
    let ext = split_on(name, '.').last();
    if has_extension(name) && (ext == "toml"@ || ext == "json"@ || ext == "env"@) {
        Some(ext)
    } else {
        None
    }
}

/// The extension of `file_name` where it names a manifest format that
/// `parse_config` reads; `None` for any other file.
pub fn manifest_extension(file_name: &str) -> (r: Option<String>)
    ensures
        match r {
            Some(e) => manifest_extension_model(file_name@) == Some(e@),
            None => manifest_extension_model(file_name@) is None,
        },
{
    let chars = chars_of(file_name);
    let mut cur: Vec<char> = Vec::new();
    let mut dotted = false;
    let mut i: usize = 0;
    proof {
        assert(chars@.take(0) =~= Seq::<char>::empty());
        assert(cur@ =~= Seq::<char>::empty());
    }
    while i < chars.len()
        invariant
            i <= chars@.len(),
            chars@ == file_name@,
            cur@ == split_on(chars@.take(i as int), '.').last(),
            dotted == exists|j: int| 0 < j < i && chars@[j] == '.',
        decreases chars.len() - i,
    {
        let c = chars[i];
        proof {
            assert(chars@.take(i + 1).drop_last() =~= chars@.take(i as int));
            crate::text::lemma_split_on_nonempty(chars@.take(i as int), '.');
        }
        if c == '.' {
            cur = Vec::new();
            proof {
                assert(cur@ =~= Seq::<char>::empty());
            }
            if i > 0 {
                dotted = true;
            }
        } else {
            cur.push(c);
        }
        i += 1;
    }
    proof {
        assert(chars@.take(chars@.len() as int) =~= chars@);
    }
    if !dotted {
        return None;
    }
    let ext = string_of(&cur);
    if same_text(ext.as_str(), "toml") || same_text(ext.as_str(), "json") || same_text(
        ext.as_str(),
        "env",
    ) {
        Some(ext)
    } else {
        None
    }
}

/// The manifests that are read first when a directory holds them.
pub open spec fn is_prioritized(name: Seq<char>) -> bool {
    name == "Cargo.toml"@ || name == "package.json"@
}

fn find_name(files: &Vec<String>, name: &str) -> (r: Option<usize>)
    ensures
        match r {
            Some(i) => i < files@.len() && files@[i as int]@ == name@ && forall|j: int|
                0 <= j < i ==> #[trigger] files@[j]@ != name@,
            None => forall|j: int| 0 <= j < files@.len() ==> #[trigger] files@[j]@ != name@,
        },
{
    let mut i: usize = 0;
    while i < files.len()
        invariant
            i <= files@.len(),
            forall|j: int| 0 <= j < i ==> #[trigger] files@[j]@ != name@,
        decreases files.len() - i,
    {
        if same_text(files[i].as_str(), name) {
            return Some(i);
        }
        i += 1;
    }
    None
}

/// Whether `i` is the file to read metadata from among `names`:
/// `Cargo.toml` if it is there, else `package.json`, else the first name
/// whose extension `parse_config` reads.
pub open spec fn is_manifest_choice(names: Seq<Seq<char>>, i: int) -> bool {
    &&& 0 <= i < names.len()
    &&& {
        ||| names[i] == "Cargo.toml"@ && forall|j: int| 0 <= j < i ==> #[trigger] names[j] != "Cargo.toml"@
        ||| (forall|j: int| 0 <= j < names.len() ==> #[trigger] names[j] != "Cargo.toml"@)
            && names[i] == "package.json"@ && forall|j: int|
            0 <= j < i ==> #[trigger] names[j] != "package.json"@
        ||| (forall|j: int| 0 <= j < names.len() ==> !is_prioritized(#[trigger] names[j]))
            && manifest_extension_model(names[i]) is Some && forall|j: int|
            0 <= j < i ==> manifest_extension_model(#[trigger] names[j]) is None
    }
}

/// No name is a manifest that `parse_config` reads.
pub open spec fn no_manifest(names: Seq<Seq<char>>) -> bool {
    forall|j: int|
        0 <= j < names.len() ==> !is_prioritized(#[trigger] names[j]) && manifest_extension_model(
            names[j],
        ) is None
}

pub open spec fn names_of(files: Seq<String>) -> Seq<Seq<char>> {
    files.map_values(|s: String| s@)
}

/// Which of a directory's files to read metadata from (see
/// `is_manifest_choice`); `None` where there is none, and the defaults
/// then apply.
pub fn choose_manifest(files: &Vec<String>) -> (r: Option<usize>)
    ensures
        match r {
            Some(i) => is_manifest_choice(names_of(files@), i as int),
            None => no_manifest(names_of(files@)),
        },
{
    let ghost names = names_of(files@);
    assert(forall|j: int| 0 <= j < files@.len() ==> #[trigger] names[j] == files@[j]@);
    if let Some(i) = find_name(files, "Cargo.toml") {
        return Some(i);
    }
    if let Some(i) = find_name(files, "package.json") {
        return Some(i);
    }
    let mut i: usize = 0;
    while i < files.len()
        invariant
            i <= files@.len(),
            names == names_of(files@),
            forall|j: int| 0 <= j < files@.len() ==> !is_prioritized(#[trigger] names[j]),
            forall|j: int| 0 <= j < i ==> manifest_extension_model(#[trigger] names[j]) is None,
        decreases files.len() - i,
    {
        if manifest_extension(files[i].as_str()).is_some() {
            return Some(i);
        }
        i += 1;
    }
    None
}

} // verus!
