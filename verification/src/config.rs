//! The configuration: what a TOML file says, and what holds where it says nothing.

use vstd::prelude::*;

use crate::numbers::to_low32;
use crate::numbers::to_unsigned64;
use crate::text::contains_text;

verus! {

use crate::numbers::low32;
use crate::numbers::unsigned64;
use crate::text::occurs_at;
use crate::text::occurs_in;
use crate::text::texts;

/// The configuration of the client.
#[derive(Debug, Clone)]
pub struct Config {
    pub log_level: String,
    /// The device that frames name as their origin.
    pub dev_id: u32,
    pub watch: WatchConfig,
    pub crypto: CryptoConfig,
    pub storage: StorageConfig,
    pub zenoh: ZenohConfig,
}

/// What is watched, and how.
#[derive(Debug, Clone)]
pub struct WatchConfig {
    pub dirs: Vec<String>,
    pub debounce_ms: u64,
    pub exclude_patterns: Vec<String>,
}

/// Where the key and the salt are.
#[derive(Debug, Clone)]
pub struct CryptoConfig {
    pub key_file: String,
    pub salt_file: String,
}

/// Where the ledger is.
#[derive(Debug, Clone)]
pub struct StorageConfig {
    pub db_path: String,
}

/// How the bus is reached.
#[derive(Debug, Clone)]
pub struct ZenohConfig {
    pub mode: String,
    pub connect: Vec<String>,
    pub timeout_ms: u64,
}

/// Why a configuration cannot be read.
#[derive(Clone, Debug, PartialEq, Eq)]
pub enum ConfigError {
    /// The text is not TOML, for this reason.
    Syntax(String),
}

/// A value of a TOML document, as far as a configuration reads it.
pub enum TomlTree {
    Text(Seq<char>),
    Integer(i64),
    Array(Seq<TomlTree>),
    Table(Map<Seq<char>, TomlTree>),
    Other,
}

/// A TOML value of the `toml` crate.
#[verifier::external_type_specification]
#[verifier::external_body]
pub struct ExTomlValue(toml::Value);

/// What a TOML value holds.
pub uninterp spec fn toml_tree(value: toml::Value) -> TomlTree;

/// What `toml::from_str` reads from a text, or the text of its error.
pub uninterp spec fn toml_document(content: Seq<char>) -> Result<TomlTree, Seq<char>>;

/// What the values of a list hold.
pub open spec fn toml_trees(list: Seq<toml::Value>) -> Seq<TomlTree> {
    list.map_values(|v: toml::Value| toml_tree(v))
}

/// `toml::from_str`, reading a document as a value. What it reads, or what its error says, depends
/// on the text alone.
#[verifier::external_body]
fn toml_from_str(content: &str) -> (r: Result<toml::Value, String>)
    ensures
        match r {
            Ok(v) => toml_document(content@) == Ok::<TomlTree, Seq<char>>(toml_tree(v)),
            Err(e) => toml_document(content@) == Err::<TomlTree, Seq<char>>(e@),
        },
{
    match toml::from_str::<toml::Value>(content) {
        Ok(value) => Ok(value),
        Err(e) => Err(e.to_string()),
    }
}

/// `toml::Value::get` with a text: the value of the key, if the value is a table that has it.
#[verifier::external_body]
fn toml_get<'a>(value: &'a toml::Value, key: &str) -> (r: Option<&'a toml::Value>)
    ensures
        r is Some == (toml_tree(*value) matches TomlTree::Table(t) && t.contains_key(key@)),
        r matches Some(v) ==> toml_tree(*v) == toml_tree(*value)->Table_0[key@],
{
    value.get(key)
}

/// `toml::Value::as_str`: the text, if the value is a string.
#[verifier::external_body]
fn toml_as_str(value: &toml::Value) -> (r: Option<&str>)
    ensures
        r is Some == toml_tree(*value) is Text,
        r matches Some(s) ==> toml_tree(*value) == TomlTree::Text(s@),
{
    value.as_str()
}

/// `toml::Value::as_integer`: the number, if the value is an integer.
#[verifier::external_body]
fn toml_as_integer(value: &toml::Value) -> (r: Option<i64>)
    ensures
        r is Some == toml_tree(*value) is Integer,
        r matches Some(i) ==> toml_tree(*value) == TomlTree::Integer(i),
{
    value.as_integer()
}

/// `toml::Value::as_array`: the values in order, if the value is an array.
#[verifier::external_body]
fn toml_as_array(value: &toml::Value) -> (r: Option<&Vec<toml::Value>>)
    ensures
        r is Some == toml_tree(*value) is Array,
        r matches Some(a) ==> toml_tree(*value) == TomlTree::Array(toml_trees(a@)),
{
    value.as_array()
}

/// The value of a key of a section.
pub open spec fn tree_at(tree: TomlTree, section: Seq<char>, key: Seq<char>) -> Option<TomlTree> {
    match tree {
        TomlTree::Table(sections) => if sections.contains_key(section) {
            match sections[section] {
                TomlTree::Table(entries) => if entries.contains_key(key) {
                    Some(entries[key])
                } else {
                    None
                },
                _ => None,
            }
        } else {
            None
        },
        _ => None,
    }
}

/// The text at a key of a section, if there is a text.
pub open spec fn text_at(tree: TomlTree, section: Seq<char>, key: Seq<char>) -> Option<Seq<char>> {
    match tree_at(tree, section, key) {
        Some(TomlTree::Text(s)) => Some(s),
        _ => None,
    }
}

/// The integer at a key of a section, if there is an integer.
pub open spec fn integer_at(tree: TomlTree, section: Seq<char>, key: Seq<char>) -> Option<i64> {
    match tree_at(tree, section, key) {
        Some(TomlTree::Integer(i)) => Some(i),
        _ => None,
    }
}

/// The texts of an array, in order; other values are left out.
pub open spec fn only_texts(list: Seq<TomlTree>) -> Seq<Seq<char>>
    decreases list.len(),
{
    if list.len() == 0 {
        Seq::empty()
    } else {
        match list.last() {
            TomlTree::Text(s) => only_texts(list.drop_last()).push(s),
            _ => only_texts(list.drop_last()),
        }
    }
}

/// The texts of the array at a key of a section, if there is an array.
pub open spec fn texts_at(tree: TomlTree, section: Seq<char>, key: Seq<char>) -> Option<
    Seq<Seq<char>>,
> {
    match tree_at(tree, section, key) {
        Some(TomlTree::Array(list)) => Some(only_texts(list)),
        _ => None,
    }
}

/// The value of a key of a section.
fn value_at<'a>(root: &'a toml::Value, section: &str, key: &str) -> (r: Option<&'a toml::Value>)
    ensures
        r is Some == tree_at(toml_tree(*root), section@, key@) is Some,
        r matches Some(v) ==> tree_at(toml_tree(*root), section@, key@) == Some(toml_tree(*v)),
{
    match toml_get(root, section) {
        None => None,
        Some(table) => toml_get(table, key),
    }
}

/// The view of an optional string.
pub open spec fn opt_text(s: Option<String>) -> Option<Seq<char>> {
    match s {
        Some(t) => Some(t@),
        None => None,
    }
}

/// The view of an optional list of strings.
pub open spec fn opt_texts(list: Option<Vec<String>>) -> Option<Seq<Seq<char>>> {
    match list {
        Some(l) => Some(texts(l@)),
        None => None,
    }
}

fn read_text(root: &toml::Value, section: &str, key: &str) -> (r: Option<String>)
    ensures
        opt_text(r) == text_at(toml_tree(*root), section@, key@),
{
    match value_at(root, section, key) {
        None => None,
        Some(v) => match toml_as_str(v) {
            None => None,
            Some(s) => Some(s.to_string()),
        },
    }
}

fn read_integer(root: &toml::Value, section: &str, key: &str) -> (r: Option<i64>)
    ensures
        r == integer_at(toml_tree(*root), section@, key@),
{
    match value_at(root, section, key) {
        None => None,
        Some(v) => toml_as_integer(v),
    }
}

fn read_texts(root: &toml::Value, section: &str, key: &str) -> (r: Option<Vec<String>>)
    ensures
        opt_texts(r) == texts_at(toml_tree(*root), section@, key@),
{
    let list = match value_at(root, section, key) {
        None => {
            return None;
        },
        Some(v) => match toml_as_array(v) {
            None => {
                return None;
            },
            Some(list) => list,
        },
    };
    let ghost trees = toml_trees(list@);
    let n: usize = list.len();
    let mut r: Vec<String> = Vec::new();
    let mut i: usize = 0;
    assert(texts(r@) =~= Seq::<Seq<char>>::empty());
    while i < n
        invariant
            i <= n,
            n == list@.len(),
            trees == toml_trees(list@),
            texts(r@) == only_texts(trees.take(i as int)),
        decreases n - i,
    {
        let ghost before = r@;
        assert(trees.take(i + 1).drop_last() =~= trees.take(i as int));
        assert(trees.take(i + 1).last() == toml_tree(list@[i as int]));
        if let Some(s) = toml_as_str(&list[i]) {
            r.push(s.to_string());
            assert(texts(r@) =~= texts(before).push(s@));
        }
        i = i + 1;
    }
    assert(trees.take(n as int) =~= trees);
    Some(r)
}

/// The settings that a document makes.
pub struct RawConfig {
    pub log_level: Option<String>,
    pub dev_id: Option<i64>,
    pub dirs: Option<Vec<String>>,
    pub debounce_ms: Option<i64>,
    pub exclude: Option<Vec<String>>,
    pub key_file: Option<String>,
    pub salt_file: Option<String>,
    pub db_path: Option<String>,
    pub mode: Option<String>,
    pub connect: Option<Vec<String>>,
    pub timeout_ms: Option<i64>,
}

/// `raw` holds what a document says.
pub open spec fn reads(raw: RawConfig, tree: TomlTree) -> bool {
    &&& opt_text(raw.log_level) == text_at(tree, "general"@, "log_level"@)
    &&& raw.dev_id == integer_at(tree, "general"@, "dev_id"@)
    &&& opt_texts(raw.dirs) == texts_at(tree, "watch"@, "dirs"@)
    &&& raw.debounce_ms == integer_at(tree, "watch"@, "debounce_ms"@)
    &&& opt_texts(raw.exclude) == texts_at(tree, "watch"@, "exclude"@)
    &&& opt_text(raw.key_file) == text_at(tree, "crypto"@, "key_file"@)
    &&& opt_text(raw.salt_file) == text_at(tree, "crypto"@, "salt_file"@)
    &&& opt_text(raw.db_path) == text_at(tree, "storage"@, "db_path"@)
    &&& opt_text(raw.mode) == text_at(tree, "zenoh"@, "mode"@)
    &&& opt_texts(raw.connect) == texts_at(tree, "zenoh"@, "connect"@)
    &&& raw.timeout_ms == integer_at(tree, "zenoh"@, "timeout_ms"@)
}

/// Reads the settings out of a document.
pub fn read_settings(root: &toml::Value) -> (r: RawConfig)
    ensures
        reads(r, toml_tree(*root)),
{
    RawConfig {
        log_level: read_text(root, "general", "log_level"),
        dev_id: read_integer(root, "general", "dev_id"),
        dirs: read_texts(root, "watch", "dirs"),
        debounce_ms: read_integer(root, "watch", "debounce_ms"),
        exclude: read_texts(root, "watch", "exclude"),
        key_file: read_text(root, "crypto", "key_file"),
        salt_file: read_text(root, "crypto", "salt_file"),
        db_path: read_text(root, "storage", "db_path"),
        mode: read_text(root, "zenoh", "mode"),
        connect: read_texts(root, "zenoh", "connect"),
        timeout_ms: read_integer(root, "zenoh", "timeout_ms"),
    }
}

/// A text, or what holds without one.
pub open spec fn text_or(s: Option<Seq<char>>, default: Seq<char>) -> Seq<char> {
    match s {
        Some(t) => t,
        None => default,
    }
}

/// A list, or an empty one.
pub open spec fn texts_or_none(list: Option<Seq<Seq<char>>>) -> Seq<Seq<char>> {
    match list {
        Some(l) => l,
        None => Seq::empty(),
    }
}

/// An integer, or what holds without one.
pub open spec fn integer_or(x: Option<i64>, default: i64) -> i64 {
    match x {
        Some(i) => i,
        None => default,
    }
}

/// `cfg` is what the settings make, with the defaults where they say nothing.
pub open spec fn resolves(cfg: Config, raw: RawConfig) -> bool {
    &&& cfg.log_level@ == text_or(opt_text(raw.log_level), "info"@)
    &&& cfg.dev_id == low32(integer_or(raw.dev_id, 1))
    &&& texts(cfg.watch.dirs@) == texts_or_none(opt_texts(raw.dirs))
    &&& cfg.watch.debounce_ms == unsigned64(integer_or(raw.debounce_ms, 200))
    &&& texts(cfg.watch.exclude_patterns@) == texts_or_none(opt_texts(raw.exclude))
    &&& cfg.crypto.key_file@ == text_or(opt_text(raw.key_file), "/etc/slimsync/key.age"@)
    &&& cfg.crypto.salt_file@ == text_or(opt_text(raw.salt_file), "/etc/slimsync/salt.bin"@)
    &&& cfg.storage.db_path@ == text_or(opt_text(raw.db_path), "/var/lib/slimsync/slimsync.db"@)
    &&& cfg.zenoh.mode@ == text_or(opt_text(raw.mode), "client"@)
    &&& texts(cfg.zenoh.connect@) == texts_or_none(opt_texts(raw.connect))
    &&& cfg.zenoh.timeout_ms == unsigned64(integer_or(raw.timeout_ms, 5000))
}

fn text_or_default(s: Option<String>, default: &str) -> (r: String)
    ensures
        r@ == text_or(opt_text(s), default@),
{
    match s {
        Some(t) => t,
        None => default.to_string(),
    }
}

fn texts_or_empty(list: Option<Vec<String>>) -> (r: Vec<String>)
    ensures
        texts(r@) == texts_or_none(opt_texts(list)),
{
    match list {
        Some(l) => l,
        None => {
            let r: Vec<String> = Vec::new();
            assert(texts(r@) =~= Seq::<Seq<char>>::empty());
            r
        },
    }
}

fn integer_or_default(x: Option<i64>, default: i64) -> (r: i64)
    ensures
        r == integer_or(x, default),
{
    match x {
        Some(i) => i,
        None => default,
    }
}

/// The configuration that settings make.
pub fn resolve(raw: RawConfig) -> (r: Config)
    ensures
        resolves(r, raw),
{
    Config {
        log_level: text_or_default(raw.log_level, "info"),
        dev_id: to_low32(integer_or_default(raw.dev_id, 1)),
        watch: WatchConfig {
            dirs: texts_or_empty(raw.dirs),
            debounce_ms: to_unsigned64(integer_or_default(raw.debounce_ms, 200)),
            exclude_patterns: texts_or_empty(raw.exclude),
        },
        crypto: CryptoConfig {
            key_file: text_or_default(raw.key_file, "/etc/slimsync/key.age"),
            salt_file: text_or_default(raw.salt_file, "/etc/slimsync/salt.bin"),
        },
        storage: StorageConfig {
            db_path: text_or_default(raw.db_path, "/var/lib/slimsync/slimsync.db"),
        },
        zenoh: ZenohConfig {
            mode: text_or_default(raw.mode, "client"),
            connect: texts_or_empty(raw.connect),
            timeout_ms: to_unsigned64(integer_or_default(raw.timeout_ms, 5000)),
        },
    }
}

/// The configuration that the content of a configuration file makes.
pub fn load(content: &str) -> (r: Result<Config, ConfigError>)
    ensures
        r is Ok == toml_document(content@) is Ok,
        r matches Ok(cfg) ==> exists|raw: RawConfig|
            {
                &&& #[trigger] reads(raw, toml_document(content@)->Ok_0)
                &&& resolves(cfg, raw)
            },
        r matches Err(ConfigError::Syntax(reason)) ==> reason@ == toml_document(content@)->Err_0,
{
    match toml_from_str(content) {
        Err(reason) => Err(ConfigError::Syntax(reason)),
        Ok(root) => {
            let raw = read_settings(&root);
            let ghost seen = raw;
            let cfg = resolve(raw);
            assert(reads(seen, toml_document(content@)->Ok_0) && resolves(cfg, seen));
            Ok(cfg)
        },
    }
}

/// The path of the configuration file: the argument, else the environment, else the default.
pub fn config_path(argument: Option<String>, environment: Option<String>) -> (r: String)
    ensures
        r@ == text_or(opt_text(argument), text_or(opt_text(environment), "slimsync.toml"@)),
{
    match argument {
        Some(path) => path,
        None => text_or_default(environment, "slimsync.toml"),
    }
}

/// A pattern of the `glob` crate.
#[verifier::external_type_specification]
#[verifier::external_body]
pub struct ExPattern(glob::Pattern);

/// The text that a pattern was made from.
pub uninterp spec fn glob_source(pattern: glob::Pattern) -> Seq<char>;

/// `glob::Pattern::new` accepts the text as a pattern.
pub uninterp spec fn glob_accepts(pattern: Seq<char>) -> bool;

/// `glob::Pattern::matches` finds that a path matches the pattern of the text.
pub uninterp spec fn glob_matches(pattern: Seq<char>, path: Seq<char>) -> bool;

/// `glob::Pattern::new`. Whether it accepts a text depends on the text alone, where slashes and
/// nothing else separate paths; its error is not kept.
#[verifier::external_body]
fn glob_pattern(pattern: &str) -> (r: Option<glob::Pattern>)
    ensures
        r is Some == glob_accepts(pattern@),
        r matches Some(p) ==> glob_source(p) == pattern@,
{
    glob::Pattern::new(pattern).ok()
}

/// `glob::Pattern::matches`, with its default options. The result depends on the pattern's text and
/// the path alone, where slashes and nothing else separate paths.
#[verifier::external_body]
fn glob_match(pattern: &glob::Pattern, path: &str) -> (r: bool)
    ensures
        r == glob_matches(glob_source(*pattern), path@),
{
    pattern.matches(path)
}

/// Whether a pattern excludes a path, given what the glob makes of both: a text that is no glob
/// excludes the paths that contain it.
pub open spec fn excluded_by(glob: Option<bool>, pattern: Seq<char>, path: Seq<char>) -> bool {
    match glob {
        Some(m) => m,
        None => occurs_in(pattern, path),
    }
}

/// What the glob makes of a pattern and a path: none where the pattern is no glob.
pub open spec fn glob_outcome(pattern: Seq<char>, path: Seq<char>) -> Option<bool> {
    if glob_accepts(pattern) {
        Some(glob_matches(pattern, path))
    } else {
        None
    }
}

/// Whether a pattern excludes a path, given what the glob makes of both.
pub fn pattern_excludes(glob: Option<bool>, pattern: &str, path: &str) -> (r: bool)
    ensures
        r == excluded_by(glob, pattern@, path@),
{
    match glob {
        Some(m) => m,
        None => contains_text(path, pattern),
    }
}

/// Some pattern of a list excludes a path.
pub open spec fn excluded(patterns: Seq<String>, path: Seq<char>) -> bool {
    exists|i: int|
        0 <= i < patterns.len() && excluded_by(
            glob_outcome((#[trigger] patterns[i])@, path),
            patterns[i]@,
            path,
        )
}

impl WatchConfig {
    /// Whether a path is left out of the watch.
    pub fn is_excluded(&self, path: &str) -> (r: bool)
        ensures
            r == excluded(self.exclude_patterns@, path@),
    {
        let n: usize = self.exclude_patterns.len();
        let mut i: usize = 0;
        while i < n
            invariant
                i <= n,
                n == self.exclude_patterns@.len(),
                forall|j: int|
                    0 <= j < i ==> !excluded_by(
                        glob_outcome((#[trigger] self.exclude_patterns@[j])@, path@),
                        self.exclude_patterns@[j]@,
                        path@,
                    ),
            decreases n - i,
        {
            let pattern = &self.exclude_patterns[i];
            let glob: Option<bool> = match glob_pattern(pattern) {
                None => None,
                Some(p) => Some(glob_match(&p, path)),
            };
            if pattern_excludes(glob, pattern, path) {
                assert(self.exclude_patterns@[i as int]@ == pattern@);
                return true;
            }
            i = i + 1;
        }
        false
    }
}

/// A configuration has what its document says, and the defaults where it says nothing: the level
/// `info`, the device 1, a debounce of 200 ms, a timeout of 5000 ms, the mode `client`, no lists, and
/// the standard places.
pub proof fn law_defaults(cfg: Config, raw: RawConfig)
    requires
        resolves(cfg, raw),
    ensures
        raw.log_level is None ==> cfg.log_level@ == "info"@,
        raw.log_level matches Some(s) ==> cfg.log_level@ == s@,
        raw.dev_id is None ==> cfg.dev_id == 1,
        raw.dev_id matches Some(i) ==> (0 <= i <= u32::MAX ==> cfg.dev_id == i),
        raw.dirs is None ==> cfg.watch.dirs@.len() == 0,
        raw.dirs matches Some(l) ==> texts(cfg.watch.dirs@) == texts(l@),
        raw.debounce_ms is None ==> cfg.watch.debounce_ms == 200,
        raw.debounce_ms matches Some(i) ==> (i >= 0 ==> cfg.watch.debounce_ms == i),
        raw.exclude is None ==> cfg.watch.exclude_patterns@.len() == 0,
        raw.exclude matches Some(l) ==> texts(cfg.watch.exclude_patterns@) == texts(l@),
        raw.key_file is None ==> cfg.crypto.key_file@ == "/etc/slimsync/key.age"@,
        raw.key_file matches Some(s) ==> cfg.crypto.key_file@ == s@,
        raw.salt_file is None ==> cfg.crypto.salt_file@ == "/etc/slimsync/salt.bin"@,
        raw.salt_file matches Some(s) ==> cfg.crypto.salt_file@ == s@,
        raw.db_path is None ==> cfg.storage.db_path@ == "/var/lib/slimsync/slimsync.db"@,
        raw.db_path matches Some(s) ==> cfg.storage.db_path@ == s@,
        raw.mode is None ==> cfg.zenoh.mode@ == "client"@,
        raw.mode matches Some(s) ==> cfg.zenoh.mode@ == s@,
        raw.connect is None ==> cfg.zenoh.connect@.len() == 0,
        raw.connect matches Some(l) ==> texts(cfg.zenoh.connect@) == texts(l@),
        raw.timeout_ms is None ==> cfg.zenoh.timeout_ms == 5000,
        raw.timeout_ms matches Some(i) ==> (i >= 0 ==> cfg.zenoh.timeout_ms == i),
{
    assert(texts(cfg.watch.dirs@).len() == cfg.watch.dirs@.len());
    assert(texts(cfg.watch.exclude_patterns@).len() == cfg.watch.exclude_patterns@.len());
    assert(texts(cfg.zenoh.connect@).len() == cfg.zenoh.connect@.len());
}

/// A setting is read from the key of its section: with the type that it has to have it is there as
/// written, with another type, without the key or without the section it is not there.
pub proof fn law_setting_is_found(
    sections: Map<Seq<char>, TomlTree>,
    entries: Map<Seq<char>, TomlTree>,
    section: Seq<char>,
    key: Seq<char>,
    value: TomlTree,
)
    ensures
        ({
            let tree = TomlTree::Table(
                sections.insert(section, TomlTree::Table(entries.insert(key, value))),
            );
            &&& value matches TomlTree::Text(s) ==> text_at(tree, section, key) == Some(s)
            &&& !(value is Text) ==> text_at(tree, section, key) is None
            &&& value matches TomlTree::Integer(i) ==> integer_at(tree, section, key) == Some(i)
            &&& !(value is Integer) ==> integer_at(tree, section, key) is None
            &&& value matches TomlTree::Array(list) ==> texts_at(tree, section, key) is Some
            &&& !(value is Array) ==> texts_at(tree, section, key) is None
        }),
        ({
            let tree = TomlTree::Table(
                sections.insert(section, TomlTree::Table(entries.remove(key))),
            );
            text_at(tree, section, key) is None && integer_at(tree, section, key) is None
                && texts_at(tree, section, key) is None
        }),
        ({
            let tree = TomlTree::Table(sections.remove(section));
            text_at(tree, section, key) is None && integer_at(tree, section, key) is None
                && texts_at(tree, section, key) is None
        }),
{
}

/// Of a list the texts are read, all of them and in their order.
pub proof fn law_texts_of_a_list(list: Seq<TomlTree>)
    ensures
        only_texts(list) == list.filter(|t: TomlTree| t is Text).map_values(
            |t: TomlTree| t->Text_0,
        ),
    decreases list.len(),
{
    reveal(Seq::filter);
    let a = |t: TomlTree| t is Text;
    let p = |t: TomlTree| t->Text_0;
    if list.len() > 0 {
        let front = list.drop_last();
        law_texts_of_a_list(front);
        assert(front.filter(a).push(list.last()).map_values(p) =~= front.filter(a).map_values(
            p,
        ).push(list.last()->Text_0));
    } else {
        assert(list.filter(a).map_values(p) =~= only_texts(list));
    }
}

/// Each setting is read from its own section and key: where the document has a text there, or an
/// integer, that is the setting.
pub proof fn law_settings_have_their_places(raw: RawConfig, tree: TomlTree)
    requires
        reads(raw, tree),
    ensures
        tree_at(tree, "general"@, "log_level"@) matches Some(TomlTree::Text(s)) ==> raw.log_level
            is Some && raw.log_level->0@ == s,
        tree_at(tree, "general"@, "dev_id"@) matches Some(TomlTree::Integer(i)) ==> raw.dev_id
            == Some(i),
        tree_at(tree, "watch"@, "dirs"@) matches Some(TomlTree::Array(l)) ==> raw.dirs is Some
            && texts(raw.dirs->0@) == only_texts(l),
        tree_at(tree, "watch"@, "debounce_ms"@) matches Some(TomlTree::Integer(i))
            ==> raw.debounce_ms == Some(i),
        tree_at(tree, "watch"@, "exclude"@) matches Some(TomlTree::Array(l)) ==> raw.exclude is Some
            && texts(raw.exclude->0@) == only_texts(l),
        tree_at(tree, "crypto"@, "key_file"@) matches Some(TomlTree::Text(s)) ==> raw.key_file
            is Some && raw.key_file->0@ == s,
        tree_at(tree, "crypto"@, "salt_file"@) matches Some(TomlTree::Text(s)) ==> raw.salt_file
            is Some && raw.salt_file->0@ == s,
        tree_at(tree, "storage"@, "db_path"@) matches Some(TomlTree::Text(s)) ==> raw.db_path
            is Some && raw.db_path->0@ == s,
        tree_at(tree, "zenoh"@, "mode"@) matches Some(TomlTree::Text(s)) ==> raw.mode is Some
            && raw.mode->0@ == s,
        tree_at(tree, "zenoh"@, "connect"@) matches Some(TomlTree::Array(l)) ==> raw.connect
            is Some && texts(raw.connect->0@) == only_texts(l),
        tree_at(tree, "zenoh"@, "timeout_ms"@) matches Some(TomlTree::Integer(i))
            ==> raw.timeout_ms == Some(i),
        tree_at(tree, "general"@, "log_level"@) is None ==> raw.log_level is None,
        tree_at(tree, "general"@, "dev_id"@) is None ==> raw.dev_id is None,
        tree_at(tree, "watch"@, "dirs"@) is None ==> raw.dirs is None,
        tree_at(tree, "watch"@, "debounce_ms"@) is None ==> raw.debounce_ms is None,
        tree_at(tree, "watch"@, "exclude"@) is None ==> raw.exclude is None,
        tree_at(tree, "crypto"@, "key_file"@) is None ==> raw.key_file is None,
        tree_at(tree, "crypto"@, "salt_file"@) is None ==> raw.salt_file is None,
        tree_at(tree, "storage"@, "db_path"@) is None ==> raw.db_path is None,
        tree_at(tree, "zenoh"@, "mode"@) is None ==> raw.mode is None,
        tree_at(tree, "zenoh"@, "connect"@) is None ==> raw.connect is None,
        tree_at(tree, "zenoh"@, "timeout_ms"@) is None ==> raw.timeout_ms is None,
{
}

/// A path is excluded if a pattern matches it as a glob, or, where the pattern is no glob, stands
/// somewhere in it; without such a pattern it is not. Further patterns never take an exclusion
/// back.
pub proof fn law_exclusion(patterns: Seq<String>, more: String, path: Seq<char>)
    ensures
        glob_accepts(more@) ==> excluded(patterns.push(more), path) == (excluded(patterns, path)
            || glob_matches(more@, path)),
        !glob_accepts(more@) ==> excluded(patterns.push(more), path) == (excluded(patterns, path)
            || exists|i: int|
            0 <= i && i + more@.len() <= path.len() && #[trigger] path.subrange(
                i,
                i + more@.len(),
            ) == more@),
        !excluded(Seq::empty(), path),
{
    let all = patterns.push(more);
    let by_more = excluded_by(glob_outcome(more@, path), more@, path);
    if excluded(patterns, path) {
        let i = choose|i: int|
            0 <= i < patterns.len() && excluded_by(
                glob_outcome((#[trigger] patterns[i])@, path),
                patterns[i]@,
                path,
            );
        assert(all[i] == patterns[i]);
    }
    if by_more {
        assert(all[patterns.len() as int] == more);
    }
    if excluded(all, path) && !by_more {
        let i = choose|i: int|
            0 <= i < all.len() && excluded_by(
                glob_outcome((#[trigger] all[i])@, path),
                all[i]@,
                path,
            );
        assert(patterns[i] == all[i]);
    }
    if occurs_in(more@, path) {
        let i = choose|i: int| #[trigger] occurs_at(more@, path, i);
        assert(path.subrange(i, i + more@.len()) == more@);
    }
    if exists|i: int|
        0 <= i && i + more@.len() <= path.len() && #[trigger] path.subrange(i, i + more@.len())
            == more@ {
        let i = choose|i: int|
            0 <= i && i + more@.len() <= path.len() && #[trigger] path.subrange(i, i + more@.len())
                == more@;
        assert(occurs_at(more@, path, i));
    }
}

} // verus!
