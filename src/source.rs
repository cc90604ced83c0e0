use vstd::prelude::*;
use vstd::string::*;

use crate::item::{decode_descriptor, raw_view, ConfigItem, DescriptorError, DescriptorErrorView, FieldView, ItemView, RawDescriptor};
use crate::text::same_text;
use crate::rules::{prefixes_well_formed, entries_view, sort_longest_first, Config, ConfigFile, RulesView};

verus! {

/// Why no rule table could be built.
#[derive(Clone, Debug, PartialEq, Eq)]
pub enum ConfigError {
    /// The configuration document is not a mapping from prefix to descriptor.
    NotAMapping,
    /// The mapping has an entry whose prefix is empty.
    EmptyPrefix,
    /// The mapping names `prefix` more than once.
    DuplicatePrefix { prefix: String },
    /// The descriptor of `prefix` is neither a directory nor a proxy, or both.
    Descriptor { prefix: String, error: DescriptorError },
    /// The configuration could not be read or parsed; `cause` says why.
    Unreadable { cause: String },
}

pub enum ConfigErrorView {
    NotAMapping,
    EmptyPrefix,
    DuplicatePrefix { prefix: Seq<char> },
    Descriptor { prefix: Seq<char>, error: DescriptorErrorView },
    Unreadable { cause: Seq<char> },
}

impl View for ConfigError {
    type V = ConfigErrorView;

    open spec fn view(&self) -> ConfigErrorView {
        match self {
            ConfigError::NotAMapping => ConfigErrorView::NotAMapping,
            ConfigError::EmptyPrefix => ConfigErrorView::EmptyPrefix,
            ConfigError::DuplicatePrefix { prefix } => ConfigErrorView::DuplicatePrefix { prefix: prefix@ },
            ConfigError::Descriptor { prefix, error } => ConfigErrorView::Descriptor { prefix: prefix@, error: error@ },
            ConfigError::Unreadable { cause } => ConfigErrorView::Unreadable { cause: cause@ },
        }
    }
}

/// A configuration document as it was parsed, before it is checked.
#[derive(Clone, Debug, PartialEq, Eq)]
pub enum RawDocument {
    Mapping(Vec<(String, RawDescriptor)>),
    NotAMapping,
}

/// Where the configuration comes from, once the arguments and the disk were looked at.
#[derive(Clone, Debug, PartialEq, Eq)]
pub enum ConfigSource {
    /// A configuration document was read and parsed.
    Document(RawDocument),
    /// A directory to serve at `/`.
    Directory(String),
    /// The configuration could not be read or parsed.
    Unreadable(String),
}

/// What to read before a configuration source can be made.
#[derive(Clone, Debug, PartialEq, Eq)]
pub enum ConfigLocation {
    ReadFile(String),
    ServeDirectory(String),
    ServeWorkingDirectory,
}

pub type EntriesView = Seq<(Seq<char>, Option<Seq<(Seq<char>, FieldView)>>)>;

pub open spec fn raw_entries_view(s: Seq<(String, RawDescriptor)>) -> EntriesView {
    s.map_values(|e: (String, RawDescriptor)| (e.0@, raw_view(e.1)))
}

/// Whether an entry before the `i`-th names the same prefix.
pub open spec fn prefix_repeated(es: EntriesView, i: int) -> bool {
    exists|j: int| 0 <= j < i && #[trigger] es[j].0 == es[i].0
}

/// The entries of a mapping decoded in order. The first entry that fails is
/// reported: an empty prefix, a prefix named before, or a descriptor that is
/// neither a directory nor a proxy (reported with its prefix).
pub open spec fn decode_entries(es: EntriesView) -> Result<RulesView, ConfigErrorView>
    decreases es.len(),
{
    if es.len() == 0 {
        Ok(Seq::empty())
    } else {
        match decode_entries(es.drop_last()) {
            Err(e) => Err(e),
            Ok(s) => if es.last().0.len() == 0 {
                Err(ConfigErrorView::EmptyPrefix)
            } else if prefix_repeated(es, es.len() - 1) {
                Err(ConfigErrorView::DuplicatePrefix { prefix: es.last().0 })
            } else {
                match decode_descriptor(es.last().1) {
                    Ok(item) => Ok(s.push((es.last().0, item))),
                    Err(error) => Err(ConfigErrorView::Descriptor { prefix: es.last().0, error }),
                }
            },
        }
    }
}

/// A mapping that decodes keeps its entries' prefixes, in order, and they
/// are non-empty and distinct.
pub proof fn lemma_decoded_prefixes(es: EntriesView)
    ensures
        decode_entries(es) matches Ok(rules) ==> {
            &&& rules.len() == es.len()
            &&& forall|i: int| 0 <= i < es.len() ==> (#[trigger] rules[i]).0 == es[i].0
            &&& prefixes_well_formed(rules)
        },
    decreases es.len(),
{
    if es.len() > 0 {
        let t = es.drop_last();
        lemma_decoded_prefixes(t);
        if let Ok(rules) = decode_entries(es) {
            let s = decode_entries(t)->Ok_0;
            assert(rules == s.push((es.last().0, rules.last().1)));
            assert forall|i: int| 0 <= i < es.len() implies (#[trigger] rules[i]).0 == es[i].0 by {
                if i < t.len() {
                    assert(rules[i] == s[i]);
                    assert(t[i] == es[i]);
                }
            }
            assert forall|i: int, j: int| 0 <= i < j < rules.len() implies (#[trigger] rules[i]).0 != (#[trigger] rules[j]).0 by {
                if j < t.len() {
                    assert(rules[i] == s[i] && rules[j] == s[j]);
                } else {
                    assert(rules[i].0 == es[i].0);
                    assert(!prefix_repeated(es, es.len() - 1));
                }
            }
            assert forall|i: int| 0 <= i < rules.len() implies (#[trigger] rules[i]).0.len() > 0 by {
                if i < t.len() {
                    assert(rules[i] == s[i]);
                }
            }
        }
    }
}

pub open spec fn file_result_view(r: Result<ConfigFile, ConfigError>) -> Result<RulesView, ConfigErrorView> {
    match r {
        Ok(f) => Ok(f@),
        Err(e) => Err(e@),
    }
}

pub open spec fn config_result_view(r: Result<Config, ConfigError>) -> Result<RulesView, ConfigErrorView> {
    match r {
        Ok(c) => Ok(c@),
        Err(e) => Err(e@),
    }
}

/// The single rule of a directory served at `/`.
pub open spec fn directory_rules(path: Seq<char>) -> RulesView {
    seq![(seq!['/'], ItemView::Directory { path: Some(path), index: None, dir: None })]
}

/// What a configuration source gives: the decoded document, the directory
/// served at `/`, or the reason it could not be read.
pub open spec fn source_rules(source: ConfigSource) -> Result<RulesView, ConfigErrorView> {
    match source {
        ConfigSource::Document(RawDocument::Mapping(entries)) => decode_entries(raw_entries_view(entries@)),
        ConfigSource::Document(RawDocument::NotAMapping) => Err(ConfigErrorView::NotAMapping),
        ConfigSource::Directory(path) => Ok(directory_rules(path@)),
        ConfigSource::Unreadable(cause) => Err(ConfigErrorView::Unreadable { cause: cause@ }),
    }
}

/// The file looked for where no configuration is named.
pub open spec fn default_config_view() -> Seq<char> {
    seq!['s', 't', 'a', 't', 'i', 'c', '_', 'h', 'o', 's', 't', '.', 'j', 's', 'o', 'n']
}

/// The name of the file looked for where no configuration is named.
pub fn default_config_name() -> (r: String)
    ensures
        r@ == default_config_view(),
{
    proof {
        reveal_strlit("static_host.json");
        assert("static_host.json"@ =~= default_config_view());
    }
    String::from_str("static_host.json")
}

/// Decides where the configuration comes from. `arg` is the path given, if
/// any; `default_exists` says whether the default file exists; `candidate_is_file`
/// says whether the path looked at (`arg`, else the default file) is a regular file.
pub fn locate_config(arg: Option<String>, default_exists: bool, candidate_is_file: bool) -> (r: ConfigLocation)
    ensures
        match arg {
            Some(p) => if candidate_is_file {
                r matches ConfigLocation::ReadFile(f) && f@ == p@
            } else {
                r matches ConfigLocation::ServeDirectory(d) && d@ == p@
            },
            None => if !default_exists {
                r is ServeWorkingDirectory
            } else if candidate_is_file {
                r matches ConfigLocation::ReadFile(f) && f@ == default_config_view()
            } else {
                r matches ConfigLocation::ServeDirectory(d) && d@ == default_config_view()
            },
        },
{
    let candidate = match arg {
        Some(p) => p,
        None => {
            if !default_exists {
                return ConfigLocation::ServeWorkingDirectory;
            }
            default_config_name()
        },
    };
    if candidate_is_file {
        ConfigLocation::ReadFile(candidate)
    } else {
        ConfigLocation::ServeDirectory(candidate)
    }
}

impl ConfigFile {
    /// The mapping that serves the directory `path` at `/`, with the default
    /// index file and listing.
    pub fn from_directory(path: String) -> (r: ConfigFile)
        ensures
            r@ == directory_rules(path@),
    {
        proof {
            reveal_strlit("/");
            assert("/"@ =~= seq!['/']);
        }
        let mut map: Vec<(String, ConfigItem)> = Vec::new();
        map.push((String::from_str("/"), ConfigItem::Directory { path: Some(path), index: None, dir: None }));
        let r = ConfigFile { map };
        assert(r@.len() == 1);
        assert(r@[0] == directory_rules(path@)[0]);
        assert(r@ =~= directory_rules(path@));
        r
    }

    /// Checks every entry of a parsed document, in order.
    pub fn from_document(doc: &RawDocument) -> (r: Result<ConfigFile, ConfigError>)
        ensures
            file_result_view(r) == match doc {
                RawDocument::Mapping(entries) => decode_entries(raw_entries_view(entries@)),
                RawDocument::NotAMapping => Err(ConfigErrorView::NotAMapping),
            },
            r matches Ok(file) ==> prefixes_well_formed(file@),
    {
        let entries = match doc {
            RawDocument::NotAMapping => {
                return Err(ConfigError::NotAMapping);
            },
            RawDocument::Mapping(entries) => entries,
        };
        let ghost ev = raw_entries_view(entries@);
        let mut map: Vec<(String, ConfigItem)> = Vec::new();
        let mut i: usize = 0;
        assert(ev.take(0) =~= Seq::<(Seq<char>, Option<Seq<(Seq<char>, FieldView)>>)>::empty());
        assert(entries_view(map@) =~= Seq::<(Seq<char>, ItemView)>::empty());
        while i < entries.len()
            invariant
                *doc == RawDocument::Mapping(*entries),
                ev == raw_entries_view(entries@),
                i <= entries@.len(),
                decode_entries(ev.take(i as int)) == Ok::<RulesView, ConfigErrorView>(entries_view(map@)),
            decreases entries.len() - i,
        {
            let prefix = &entries[i].0;
            let ghost es = ev.take(i + 1);
            assert(es.drop_last() =~= ev.take(i as int));
            assert(es.last() == ev[i as int]);
            assert(ev[i as int] == (prefix@, raw_view(entries@[i as int].1)));
            if prefix.as_str().is_empty() {
                assert(ev.take(entries@.len() as int) =~= ev);
                proof {
                    lemma_decode_error_sticks(ev, i as int + 1);
                }
                return Err(ConfigError::EmptyPrefix);
            }
            let mut j: usize = 0;
            while j < i
                invariant
                    *doc == RawDocument::Mapping(*entries),
                    ev == raw_entries_view(entries@),
                    decode_entries(ev.take(i as int)) == Ok::<RulesView, ConfigErrorView>(entries_view(map@)),
                    es.drop_last() == ev.take(i as int),
                    es.last().0.len() > 0,
                    j <= i < entries@.len(),
                    es == ev.take(i + 1),
                    prefix@ == es[i as int].0,
                    forall|k: int| 0 <= k < j ==> #[trigger] es[k].0 != es[i as int].0,
                decreases i - j,
            {
                assert(es[j as int] == ev[j as int]);
                assert(ev[j as int].0 == entries@[j as int].0@);
                if same_text(entries[j].0.as_str(), prefix.as_str()) {
                    assert(prefix_repeated(es, i as int));
                    assert(ev.take(entries@.len() as int) =~= ev);
                    proof {
                        lemma_decode_error_sticks(ev, i as int + 1);
                    }
                    return Err(ConfigError::DuplicatePrefix { prefix: prefix.clone() });
                }
                j = j + 1;
            }
            assert(!prefix_repeated(es, i as int));
            match ConfigItem::from_descriptor(&entries[i].1) {
                Ok(item) => {
                    let ghost before = map@;
                    map.push((prefix.clone(), item));
                    assert(entries_view(map@) =~= entries_view(before).push((prefix@, item@)));
                },
                Err(error) => {
                    let r = Err(ConfigError::Descriptor { prefix: prefix.clone(), error });
                    assert(ev.take(entries@.len() as int) =~= ev);
                    proof {
                        lemma_decode_error_sticks(ev, i as int + 1);
                    }
                    return r;
                },
            }
            i = i + 1;
        }
        assert(ev.take(i as int) =~= ev);
        proof {
            lemma_decoded_prefixes(ev);
        }
        Ok(ConfigFile { map })
    }

    /// The mapping a configuration source gives.
    pub fn from_source(source: ConfigSource) -> (r: Result<ConfigFile, ConfigError>)
        ensures
            file_result_view(r) == source_rules(source),
            r matches Ok(file) ==> prefixes_well_formed(file@),
    {
        match source {
            ConfigSource::Document(doc) => ConfigFile::from_document(&doc),
            ConfigSource::Directory(path) => Ok(ConfigFile::from_directory(path)),
            ConfigSource::Unreadable(cause) => Err(ConfigError::Unreadable { cause }),
        }
    }
}

proof fn lemma_decode_error_sticks(es: EntriesView, k: int)
    requires
        0 <= k <= es.len(),
        decode_entries(es.take(k)) is Err,
    ensures
        decode_entries(es) == decode_entries(es.take(k)),
    decreases es.len() - k,
{
    if k < es.len() {
        assert(es.take(k + 1).drop_last() =~= es.take(k));
        lemma_decode_error_sticks(es, k + 1);
    } else {
        assert(es.take(k) =~= es);
    }
}

impl Config {
    /// The rule table of a configuration source, or why there is none.
    pub fn from_config_path(source: ConfigSource) -> (r: Result<Config, ConfigError>)
        ensures
            config_result_view(r) == match source_rules(source) {
                Ok(rules) => Ok(sort_longest_first(rules)),
                Err(e) => Err(e),
            },
    {
        match ConfigFile::from_source(source) {
            Ok(file) => Ok(Config::from_config_file(file)),
            Err(e) => Err(e),
        }
    }
}

} // verus!
