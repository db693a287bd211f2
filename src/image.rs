//! Container images as trace roots: the image configuration that matters
//! at run time, the prepared root, and the provider's decisions.
use vstd::prelude::*;
use crate::facts::{find_fact, lookup};
use crate::model::opt_view;
use crate::text::{trim, trim_seq, views};

verus! {

/// Run-time settings of a container image.
#[derive(Debug)]
pub struct ImageConfig {
    pub workdir: Option<String>,
    pub entrypoint: Vec<String>,
    pub cmd: Vec<String>,
    pub env: Vec<String>,
}

impl Default for ImageConfig {
    fn default() -> (r: Self)
        ensures
            r.workdir is None,
            r.entrypoint@.len() == 0,
            r.cmd@.len() == 0,
            r.env@.len() == 0,
    {
        ImageConfig { workdir: None, entrypoint: Vec::new(), cmd: Vec::new(), env: Vec::new() }
    }
}

impl ImageConfig {
    pub fn is_empty(&self) -> (r: bool)
        ensures
            r == (self.workdir is None && self.entrypoint@.len() == 0 && self.cmd@.len() == 0
                && self.env@.len() == 0),
    {
        self.workdir.is_none() && self.entrypoint.len() == 0 && self.cmd.len() == 0
            && self.env.len() == 0
    }
}

/// A prepared image root file system with the image's configuration.
#[derive(Debug)]
pub struct ImageRoot {
    reference: String,
    rootfs_path: String,
    config: ImageConfig,
}

impl ImageRoot {
    pub closed spec fn reference_view(&self) -> Seq<char> {
        self.reference@
    }

    pub closed spec fn rootfs_view(&self) -> Seq<char> {
        self.rootfs_path@
    }

    pub closed spec fn config_value(&self) -> ImageConfig {
        self.config
    }

    pub fn new(reference: &str, rootfs_path: &str, config: ImageConfig) -> (r: Self)
        ensures
            r.reference_view() == reference@,
            r.rootfs_view() == rootfs_path@,
            r.config_value() == config,
    {
        ImageRoot { reference: reference.to_owned(), rootfs_path: rootfs_path.to_owned(), config }
    }

    pub fn reference(&self) -> (r: &str)
        ensures
            r@ == self.reference_view(),
    {
        self.reference.as_str()
    }

    pub fn rootfs(&self) -> (r: &str)
        ensures
            r@ == self.rootfs_view(),
    {
        self.rootfs_path.as_str()
    }

    pub fn config(&self) -> (r: &ImageConfig)
        ensures
            *r == self.config_value(),
    {
        &self.config
    }

    pub fn into_parts(self) -> (r: (String, String, ImageConfig))
        ensures
            r.0@ == self.reference_view(),
            r.1@ == self.rootfs_view(),
            r.2 == self.config_value(),
    {
        (self.reference, self.rootfs_path, self.config)
    }
}

/// Settings of the Docker provider: the CLI it falls back to.
#[derive(Debug, Clone)]
pub struct DockerProvider {
    pub cli_path: String,
}

impl Default for DockerProvider {
    fn default() -> (r: Self)
        ensures
            r.cli_path@ == "docker"@,
    {
        DockerProvider { cli_path: "docker".to_owned() }
    }
}

impl DockerProvider {
    pub fn new() -> (r: Self)
        ensures
            r.cli_path@ == "docker"@,
    {
        Self::default()
    }

    pub fn with_cli_path(self, path: &str) -> (r: Self)
        ensures
            r.cli_path@ == path@,
    {
        DockerProvider { cli_path: path.to_owned() }
    }
}

#[derive(Debug)]
pub enum ImageProviderError {
    Unavailable { backend: String, reason: String },
    EmptyReference,
    NotFound { reference: String, message: String },
    Io(String),
    Other(String),
}

impl ImageProviderError {
    pub fn unavailable(backend: &str, reason: &str) -> (r: Self)
        ensures
            r matches ImageProviderError::Unavailable { backend: b, reason: m } && b@ == backend@
                && m@ == reason@,
    {
        ImageProviderError::Unavailable { backend: backend.to_owned(), reason: reason.to_owned() }
    }

    pub fn not_found(reference: &str, message: &str) -> (r: Self)
        ensures
            r matches ImageProviderError::NotFound { reference: x, message: m } && x@ == reference@
                && m@ == message@,
    {
        ImageProviderError::NotFound { reference: reference.to_owned(), message: message.to_owned() }
    }
}

/// The reference with surrounding white space removed; a blank one is
/// refused.
pub fn validate_reference(reference: &str) -> (r: Result<String, ImageProviderError>)
    ensures
        match r {
            Ok(t) => t@ == trim_seq(reference@) && t@.len() > 0,
            Err(e) => e is EmptyReference && trim_seq(reference@).len() == 0,
        },
{
    let t = trim(reference);
    if t.unicode_len() == 0 {
        Err(ImageProviderError::EmptyReference)
    } else {
        Ok(t)
    }
}

/// Where a provider stands: the native API is tried first, the CLI after
/// it fails.
#[derive(Debug, Clone, Copy, PartialEq, Eq, Structural)]
pub enum ProviderState {
    Idle,
    PreferredAttempt,
    FallbackAttempt,
    Ready,
    Failed,
}

/// The next state after an attempt succeeded (`ok`) or failed; from
/// `Idle` the preferred path is tried whatever `ok` says.
pub open spec fn provider_next_spec(state: ProviderState, ok: bool) -> ProviderState {
    match state {
        ProviderState::Idle => ProviderState::PreferredAttempt,
        ProviderState::PreferredAttempt => if ok {
            ProviderState::Ready
        } else {
            ProviderState::FallbackAttempt
        },
        ProviderState::FallbackAttempt => if ok {
            ProviderState::Ready
        } else {
            ProviderState::Failed
        },
        other => other,
    }
}

pub fn provider_next(state: ProviderState, ok: bool) -> (r: ProviderState)
    ensures
        r == provider_next_spec(state, ok),
{
    match state {
        ProviderState::Idle => ProviderState::PreferredAttempt,
        ProviderState::PreferredAttempt => if ok {
            ProviderState::Ready
        } else {
            ProviderState::FallbackAttempt
        },
        ProviderState::FallbackAttempt => if ok {
            ProviderState::Ready
        } else {
            ProviderState::Failed
        },
        other => other,
    }
}

/// A JSON document as plain values.
#[derive(Debug)]
pub enum JsonValue {
    Null,
    Bool(bool),
    Number(String),
    Str(String),
    Array(Vec<JsonValue>),
    Object(Vec<(String, JsonValue)>),
}

/// The member `key` of an object.
pub open spec fn member(v: JsonValue, key: Seq<char>) -> Option<JsonValue> {
    match v {
        JsonValue::Object(m) => lookup(m@, key),
        _ => None,
    }
}

/// The strings among `items`, in order; other values are skipped.
pub open spec fn strings_of(items: Seq<JsonValue>) -> Seq<Seq<char>>
    decreases items.len(),
{
    if items.len() == 0 {
        Seq::empty()
    } else {
        let init = strings_of(items.drop_last());
        match items.last() {
            JsonValue::Str(s) => init.push(s@),
            _ => init,
        }
    }
}

/// The strings of the array member `key`, if it is an array.
pub open spec fn string_list(cfg: JsonValue, key: Seq<char>) -> Option<Seq<Seq<char>>> {
    match member(cfg, key) {
        Some(JsonValue::Array(items)) => Some(strings_of(items@)),
        _ => None,
    }
}

fn member_of<'a>(v: &'a JsonValue, key: &str) -> (r: Option<&'a JsonValue>)
    ensures
        match r {
            Some(x) => member(*v, key@) == Some(*x),
            None => member(*v, key@) is None,
        },
{
    match v {
        JsonValue::Object(m) => match find_fact(m, key) {
            Some(i) => Some(&m[i].1),
            None => None,
        },
        _ => None,
    }
}

fn collect_strings(items: &Vec<JsonValue>) -> (r: Vec<String>)
    ensures
        views(r@) == strings_of(items@),
{
    let mut out: Vec<String> = Vec::new();
    let mut i: usize = 0;
    while i < items.len()
        invariant
            i <= items@.len(),
            views(out@) == strings_of(items@.subrange(0, i as int)),
        decreases items@.len() - i,
    {
        assert(items@.subrange(0, i + 1).drop_last() =~= items@.subrange(0, i as int));
        match &items[i] {
            JsonValue::Str(s) => {
                let ghost before = views(out@);
                out.push(s.clone());
                assert(views(out@) =~= before.push(s@));
            },
            _ => {},
        }
        i += 1;
    }
    assert(items@.subrange(0, items@.len() as int) =~= items@);
    out
}

fn string_list_of(cfg: &JsonValue, key: &str) -> (r: Option<Vec<String>>)
    ensures
        match r {
            Some(v) => string_list(*cfg, key@) == Some(views(v@)),
            None => string_list(*cfg, key@) is None,
        },
{
    match member_of(cfg, key) {
        Some(JsonValue::Array(items)) => Some(collect_strings(items)),
        _ => None,
    }
}

/// The configuration in an image inspection document: the members of
/// its `Config` object, when there is one.
pub fn image_config_from_value(value: &JsonValue) -> (r: ImageConfig)
    ensures
        match member(*value, "Config"@) {
            Some(cfg) if cfg is Object => {
                &&& opt_view(r.workdir) == match member(cfg, "WorkingDir"@) {
                    Some(JsonValue::Str(s)) => if s@.len() > 0 {
                        Some(s@)
                    } else {
                        None
                    },
                    _ => None,
                }
                &&& views(r.entrypoint@) == match string_list(cfg, "Entrypoint"@) {
                    Some(l) => l,
                    None => Seq::empty(),
                }
                &&& views(r.cmd@) == match string_list(cfg, "Cmd"@) {
                    Some(l) => l,
                    None => Seq::empty(),
                }
                &&& views(r.env@) == match string_list(cfg, "Env"@) {
                    Some(l) => l,
                    None => Seq::empty(),
                }
            },
            _ => r.workdir is None && r.entrypoint@.len() == 0 && r.cmd@.len() == 0
                && r.env@.len() == 0,
        },
{
    let mut result = ImageConfig::default();
    let cfg = match member_of(value, "Config") {
        Some(c) => c,
        None => {
            return result;
        },
    };
    match cfg {
        JsonValue::Object(_) => {},
        _ => {
            return result;
        },
    }
    match member_of(cfg, "WorkingDir") {
        Some(JsonValue::Str(s)) => {
            if s.unicode_len() > 0 {
                result.workdir = Some(s.clone());
            }
        },
        _ => {},
    }
    match string_list_of(cfg, "Entrypoint") {
        Some(l) => {
            result.entrypoint = l;
        },
        None => {},
    }
    match string_list_of(cfg, "Cmd") {
        Some(l) => {
            result.cmd = l;
        },
        None => {},
    }
    match string_list_of(cfg, "Env") {
        Some(l) => {
            result.env = l;
        },
        None => {},
    }
    proof {
        assert(views(Seq::<String>::empty()) =~= Seq::<Seq<char>>::empty());
    }
    result
}

} // verus!
