use vstd::prelude::*;
use vstd::string::*;

use crate::text::same_text;

verus! {

/// What one prefix of the mapping does: forward to an origin, or serve a directory.
#[derive(Clone, Debug, PartialEq, Eq)]
pub enum ConfigItem {
    Proxy { proxy_to: String },
    Directory { path: Option<String>, index: Option<String>, dir: Option<bool> },
}

/// A field of a descriptor as the configuration document held it.
#[derive(Clone, Debug, PartialEq, Eq)]
pub enum FieldValue {
    Text(String),
    Flag(bool),
    Other,
}

/// A descriptor as the configuration document held it, before it is checked.
#[derive(Clone, Debug, PartialEq, Eq)]
pub enum RawDescriptor {
    Object(Vec<(String, FieldValue)>),
    NotAnObject,
}

/// Why a descriptor is neither a directory nor a proxy, or is both.
#[derive(Clone, Debug, PartialEq, Eq)]
pub enum DescriptorError {
    NotAnObject,
    UnknownField(String),
    WrongFieldType(String),
    BothShapes,
}

pub enum ItemView {
    Proxy { proxy_to: Seq<char> },
    Directory { path: Option<Seq<char>>, index: Option<Seq<char>>, dir: Option<bool> },
}

pub enum FieldView {
    Text(Seq<char>),
    Flag(bool),
    Other,
}

pub enum DescriptorErrorView {
    NotAnObject,
    UnknownField(Seq<char>),
    WrongFieldType(Seq<char>),
    BothShapes,
}

pub open spec fn opt_view(o: Option<String>) -> Option<Seq<char>> {
    match o {
        Some(s) => Some(s@),
        None => None,
    }
}

impl View for ConfigItem {
    type V = ItemView;

    open spec fn view(&self) -> ItemView {
        match self {
            ConfigItem::Proxy { proxy_to } => ItemView::Proxy { proxy_to: proxy_to@ },
            ConfigItem::Directory { path, index, dir } => ItemView::Directory {
                path: opt_view(*path),
                index: opt_view(*index),
                dir: *dir,
            },
        }
    }
}

impl View for FieldValue {
    type V = FieldView;

    open spec fn view(&self) -> FieldView {
        match self {
            FieldValue::Text(s) => FieldView::Text(s@),
            FieldValue::Flag(b) => FieldView::Flag(*b),
            FieldValue::Other => FieldView::Other,
        }
    }
}

impl View for DescriptorError {
    type V = DescriptorErrorView;

    open spec fn view(&self) -> DescriptorErrorView {
        match self {
            DescriptorError::NotAnObject => DescriptorErrorView::NotAnObject,
            DescriptorError::UnknownField(k) => DescriptorErrorView::UnknownField(k@),
            DescriptorError::WrongFieldType(k) => DescriptorErrorView::WrongFieldType(k@),
            DescriptorError::BothShapes => DescriptorErrorView::BothShapes,
        }
    }
}

pub open spec fn fields_view(fields: Seq<(String, FieldValue)>) -> Seq<(Seq<char>, FieldView)> {
    fields.map_values(|f: (String, FieldValue)| (f.0@, f.1@))
}

pub open spec fn key_proxy_to() -> Seq<char> {
    seq!['p', 'r', 'o', 'x', 'y', '_', 't', 'o']
}

pub open spec fn key_path() -> Seq<char> {
    seq!['p', 'a', 't', 'h']
}

pub open spec fn key_index() -> Seq<char> {
    seq!['i', 'n', 'd', 'e', 'x']
}

pub open spec fn key_dir() -> Seq<char> {
    seq!['d', 'i', 'r']
}

/// A key that one of the two descriptor shapes knows.
pub open spec fn is_known_key(k: Seq<char>) -> bool {
    k == key_proxy_to() || k == key_path() || k == key_index() || k == key_dir()
}

/// A field whose key is known and whose value has the type that key takes.
pub open spec fn field_ok(f: (Seq<char>, FieldView)) -> bool {
    if f.0 == key_dir() {
        f.1 is Flag
    } else {
        is_known_key(f.0) && f.1 is Text
    }
}

/// The first field that fits neither shape stands at `i`.
pub open spec fn first_bad_field(fields: Seq<(Seq<char>, FieldView)>, i: int) -> bool {
    &&& 0 <= i < fields.len()
    &&& !field_ok(fields[i])
    &&& forall|j: int| 0 <= j < i ==> field_ok(#[trigger] fields[j])
}

/// The error that a field which fits neither shape gives.
pub open spec fn bad_field_error(f: (Seq<char>, FieldView)) -> DescriptorErrorView {
    if is_known_key(f.0) {
        DescriptorErrorView::WrongFieldType(f.0)
    } else {
        DescriptorErrorView::UnknownField(f.0)
    }
}

/// The last field named `k`, where a key occurs more than once.
pub open spec fn last_field(fields: Seq<(Seq<char>, FieldView)>, k: Seq<char>) -> Option<FieldView>
    decreases fields.len(),
{
    if fields.len() == 0 {
        None
    } else if fields.last().0 == k {
        Some(fields.last().1)
    } else {
        last_field(fields.drop_last(), k)
    }
}

pub open spec fn text_of(f: Option<FieldView>) -> Option<Seq<char>> {
    match f {
        Some(FieldView::Text(s)) => Some(s),
        _ => None,
    }
}

pub open spec fn flag_of(f: Option<FieldView>) -> Option<bool> {
    match f {
        Some(FieldView::Flag(b)) => Some(b),
        _ => None,
    }
}

/// What a descriptor object whose fields all fit one shape or the other decodes to.
pub open spec fn decode_fields(fields: Seq<(Seq<char>, FieldView)>) -> Result<ItemView, DescriptorErrorView> {
    let proxy = last_field(fields, key_proxy_to());
    let path = last_field(fields, key_path());
    let index = last_field(fields, key_index());
    let dir = last_field(fields, key_dir());
    if proxy is Some {
        if path is Some || index is Some || dir is Some {
            Err(DescriptorErrorView::BothShapes)
        } else {
            Ok(ItemView::Proxy { proxy_to: text_of(proxy)->0 })
        }
    } else {
        Ok(ItemView::Directory { path: text_of(path), index: text_of(index), dir: flag_of(dir) })
    }
}

/// The fields of a descriptor, or `None` where it is not an object.
pub open spec fn raw_view(raw: RawDescriptor) -> Option<Seq<(Seq<char>, FieldView)>> {
    match raw {
        RawDescriptor::Object(fields) => Some(fields_view(fields@)),
        RawDescriptor::NotAnObject => None,
    }
}

/// What a descriptor decodes to: the first field that fits neither shape is
/// reported, else the fields decide between a directory and a proxy.
pub open spec fn decode_descriptor(raw: Option<Seq<(Seq<char>, FieldView)>>) -> Result<ItemView, DescriptorErrorView> {
    match raw {
        None => Err(DescriptorErrorView::NotAnObject),
        Some(fv) => if exists|i: int| first_bad_field(fv, i) {
            Err(bad_field_error(fv[choose|i: int| first_bad_field(fv, i)]))
        } else {
            decode_fields(fv)
        },
    }
}

pub open spec fn result_view(r: Result<ConfigItem, DescriptorError>) -> Result<ItemView, DescriptorErrorView> {
    match r {
        Ok(i) => Ok(i@),
        Err(e) => Err(e@),
    }
}

proof fn lemma_first_bad_unique(fields: Seq<(Seq<char>, FieldView)>, i: int)
    requires
        first_bad_field(fields, i),
    ensures
        forall|k: int| first_bad_field(fields, k) ==> k == i,
{
    assert forall|k: int| first_bad_field(fields, k) implies k == i by {
        if k < i {
            assert(field_ok(fields[k]));
        } else if k > i {
            assert(field_ok(fields[i]));
        }
    }
}

enum Key {
    ProxyTo,
    Path,
    Index,
    Dir,
}

spec fn key_text(k: Key) -> Seq<char> {
    match k {
        Key::ProxyTo => key_proxy_to(),
        Key::Path => key_path(),
        Key::Index => key_index(),
        Key::Dir => key_dir(),
    }
}

fn known_key(k: &str) -> (r: Option<Key>)
    ensures
        r is None <==> !is_known_key(k@),
        r matches Some(key) ==> k@ == key_text(key),
{
    proof {
        reveal_strlit("proxy_to");
        reveal_strlit("path");
        reveal_strlit("index");
        reveal_strlit("dir");
        assert("proxy_to"@ =~= key_proxy_to());
        assert("path"@ =~= key_path());
        assert("index"@ =~= key_index());
        assert("dir"@ =~= key_dir());
    }
    if same_text(k, "proxy_to") {
        Some(Key::ProxyTo)
    } else if same_text(k, "path") {
        Some(Key::Path)
    } else if same_text(k, "index") {
        Some(Key::Index)
    } else if same_text(k, "dir") {
        Some(Key::Dir)
    } else {
        None
    }
}

impl ConfigItem {
    /// Checks a descriptor and turns it into an item. The first field with an
    /// unknown key or a value of the wrong type is reported; a descriptor that
    /// names `proxy_to` together with a directory field is refused as both
    /// shapes. Where a key occurs twice, its last field counts.
    pub fn from_descriptor(raw: &RawDescriptor) -> (r: Result<ConfigItem, DescriptorError>)
        ensures
            result_view(r) == decode_descriptor(raw_view(*raw)),
    {
        let fields = match raw {
            RawDescriptor::NotAnObject => {
                return Err(DescriptorError::NotAnObject);
            },
            RawDescriptor::Object(fields) => fields,
        };
        let ghost fv = fields_view(fields@);
        let mut proxy: Option<String> = None;
        let mut path: Option<String> = None;
        let mut index: Option<String> = None;
        let mut dir: Option<bool> = None;
        let mut i: usize = 0;
        while i < fields.len()
            invariant
                *raw == RawDescriptor::Object(*fields),
                fv == fields_view(fields@),
                i <= fields.len(),
                forall|j: int| 0 <= j < i ==> field_ok(#[trigger] fv[j]),
                opt_view(proxy) == text_of(last_field(fv.take(i as int), key_proxy_to())),
                (proxy is Some) == (last_field(fv.take(i as int), key_proxy_to()) is Some),
                opt_view(path) == text_of(last_field(fv.take(i as int), key_path())),
                (path is Some) == (last_field(fv.take(i as int), key_path()) is Some),
                opt_view(index) == text_of(last_field(fv.take(i as int), key_index())),
                (index is Some) == (last_field(fv.take(i as int), key_index()) is Some),
                dir == flag_of(last_field(fv.take(i as int), key_dir())),
                (dir is Some) == (last_field(fv.take(i as int), key_dir()) is Some),
            decreases fields.len() - i,
        {
            let key = &fields[i].0;
            let value = &fields[i].1;
            assert(fv.take(i + 1).drop_last() =~= fv.take(i as int));
            assert(fv.take(i + 1).last() == fv[i as int]);
            assert(fv[i as int] == (key@, value@));
            match known_key(key.as_str()) {
                None => {
                    assert(first_bad_field(fv, i as int));
                    proof {
                        lemma_first_bad_unique(fv, i as int);
                    }
                    return Err(DescriptorError::UnknownField(key.clone()));
                },
                Some(Key::Dir) => {
                    match value {
                        FieldValue::Flag(b) => {
                            dir = Some(*b);
                        },
                        _ => {
                            assert(first_bad_field(fv, i as int));
                            proof {
                                lemma_first_bad_unique(fv, i as int);
                            }
                            return Err(DescriptorError::WrongFieldType(key.clone()));
                        },
                    }
                },
                Some(k) => {
                    let text = match value {
                        FieldValue::Text(t) => t.clone(),
                        _ => {
                            assert(first_bad_field(fv, i as int));
                            proof {
                                lemma_first_bad_unique(fv, i as int);
                            }
                            return Err(DescriptorError::WrongFieldType(key.clone()));
                        },
                    };
                    match k {
                        Key::ProxyTo => {
                            proxy = Some(text);
                        },
                        Key::Path => {
                            path = Some(text);
                        },
                        _ => {
                            index = Some(text);
                        },
                    }
                },
            }
            i = i + 1;
        }
        assert(fv.take(i as int) =~= fv);
        assert(!exists|i: int| first_bad_field(fv, i));
        match proxy {
            Some(p) => {
                if path.is_some() || index.is_some() || dir.is_some() {
                    Err(DescriptorError::BothShapes)
                } else {
                    Ok(ConfigItem::Proxy { proxy_to: p })
                }
            },
            None => Ok(ConfigItem::Directory { path, index, dir }),
        }
    }
}

} // verus!
