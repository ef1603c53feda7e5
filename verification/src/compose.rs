//! Secrets of a service configuration: which stored parameters its services
//! refer to, and the configuration fragment that hands them over as environment
//! variables.
use vstd::prelude::*;
use vstd::string::*;
use itertools::Itertools;
use crate::models::{lemma_views_push, views};
use crate::pairs::{keep_last, last_wins};
use crate::text::{
    after_last, before_last, push_char, replace_char, replaced, text_after_last,
    text_before_last, to_uppercase, unicode_uppercase,
};

verus! {

/// A service configuration: its services by name, and its secret definitions by
/// name. No name occurs twice in either list of a well-formed configuration.
#[derive(Clone, Debug, PartialEq, Eq)]
pub struct ComposeFile {
    pub services: Vec<(String, Service)>,
    pub secrets: Option<Vec<(String, SecretDefinition)>>,
}

/// One service, with the secrets it refers to.
#[derive(Clone, Debug, PartialEq, Eq)]
pub struct Service {
    pub secrets: Option<Vec<ServiceSecret>>,
}

/// A reference from a service to a secret: by name alone, or in detail.
#[derive(Clone, Debug, PartialEq, Eq)]
pub enum ServiceSecret {
    NameOnly(String),
    Detailed(ServiceSecretDetail),
}

/// A detailed reference to the secret `source`.
#[derive(Clone, Debug, PartialEq, Eq)]
pub struct ServiceSecretDetail {
    pub source: String,
    pub target: Option<String>,
    pub uid: Option<String>,
    pub gid: Option<String>,
    pub mode: Option<u32>,
}

/// Where a secret comes from: a file, an environment variable, or outside the
/// configuration.
#[derive(Clone, Debug, PartialEq, Eq)]
pub enum SecretDefinition {
    File { file: String },
    Environment { environment: String },
    External { external: Option<bool> },
}

impl ComposeFile {
    /// True when no service name and no secret name occurs twice.
    pub open spec fn well_formed(&self) -> bool {
        &&& forall|i: int, j: int|
            0 <= i < j < self.services@.len() ==> self.services@[i].0@ != self.services@[j].0@
        &&& self.secrets matches Some(definitions) ==> forall|i: int, j: int|
            0 <= i < j < definitions@.len() ==> definitions@[i].0@ != definitions@[j].0@
    }
}

/// The name of the secret that a reference points to.
pub open spec fn secret_source(secret: ServiceSecret) -> Seq<char> {
    match secret {
        ServiceSecret::NameOnly(name) => name@,
        ServiceSecret::Detailed(detail) => detail.source@,
    }
}

/// The key of the parameter that stores the secret `source` of `service` in
/// `namespace`: `/apps/<namespace>/<service>/secrets/<source>`.
pub open spec fn secret_key(namespace: Seq<char>, service: Seq<char>, source: Seq<char>) -> Seq<
    char,
> {
    seq!['/', 'a', 'p', 'p', 's', '/'] + namespace + seq!['/'] + service + seq![
        '/',
        's',
        'e',
        'c',
        'r',
        'e',
        't',
        's',
        '/',
    ] + source
}

/// The keys of the secrets that one service refers to, in the order of its
/// references.
pub open spec fn service_secret_keys(namespace: Seq<char>, service: (String, Service)) -> Seq<
    Seq<char>,
> {
    match service.1.secrets {
        Some(secrets) => secrets@.map_values(
            |secret: ServiceSecret| secret_key(namespace, service.0@, secret_source(secret)),
        ),
        None => Seq::empty(),
    }
}

/// The keys of the secrets that `services` refer to: service after service, each
/// with its references in order.
pub open spec fn secret_keys(namespace: Seq<char>, services: Seq<(String, Service)>) -> Seq<
    Seq<char>,
> {
    services.map_values(|service: (String, Service)| service_secret_keys(namespace, service))
        .flatten()
}

/// The path under which a key is listed: what precedes its last separator.
pub open spec fn parent_path(key: Seq<char>) -> Seq<char> {
    before_last(key, '/')
}

/// The name by which a configuration knows the secret stored under `key`: what
/// follows the key's last separator.
pub open spec fn short_name(key: Seq<char>) -> Seq<char> {
    after_last(key, '/')
}

/// The environment variable that carries the parameter stored under `key`: the
/// key with every separator replaced by an underscore, in upper case.
pub open spec fn env_name(key: Seq<char>) -> Seq<char> {
    unicode_uppercase(replace_char(key, '/', '_'))
}

/// The secret definitions of the fragment for the secrets stored under `keys`:
/// for each short name, once, the environment variable of the last key with
/// that short name.
pub open spec fn manifest_secrets(keys: Seq<Seq<char>>) -> Seq<(Seq<char>, Seq<char>)> {
    last_wins(keys.map_values(|key: Seq<char>| (short_name(key), env_name(key))))
}

/// True when `definition` defines the secret `secret.0` as the environment
/// variable `secret.1`.
pub open spec fn defines_one(
    definition: (String, SecretDefinition),
    secret: (Seq<char>, Seq<char>),
) -> bool {
    &&& definition.0@ == secret.0
    &&& definition.1 matches SecretDefinition::Environment { environment }
    &&& environment@ == secret.1
}

/// True when `definitions` define exactly `secrets`, each as an environment
/// variable, in order.
pub open spec fn defines(
    definitions: Seq<(String, SecretDefinition)>,
    secrets: Seq<(Seq<char>, Seq<char>)>,
) -> bool {
    &&& definitions.len() == secrets.len()
    &&& forall|i: int|
        0 <= i < definitions.len() ==> defines_one(#[trigger] definitions[i], secrets[i])
}

/// The environment that hands over `parameters`, each a name and a value: for
/// each parameter name, once, its environment variable with the value of the
/// last parameter of that name.
pub open spec fn secret_variables(parameters: Seq<(Seq<char>, Seq<char>)>) -> Seq<
    (Seq<char>, Seq<char>),
> {
    last_wins(parameters).map_values(
        |parameter: (Seq<char>, Seq<char>)| (env_name(parameter.0), parameter.1),
    )
}

/// The key of the parameter that stores the secret `source` of `service` in
/// `namespace`.
pub fn secret_name(namespace: &str, service: &str, source: &str) -> (key: String)
    ensures
        key@ == secret_key(namespace@, service@, source@),
{
    proof {
        reveal_strlit("/apps/");
        reveal_strlit("/secrets/");
    }
    let mut key = String::from_str("/apps/");
    key.append(namespace);
    push_char(&mut key, '/');
    key.append(service);
    key.append("/secrets/");
    key.append(source);
    key
}

/// The keys of the secrets that the services of `compose` refer to, in
/// `namespace`: service after service, each with its references in order.
pub fn secret_names(compose: &ComposeFile, namespace: &str) -> (names: Vec<String>)
    ensures
        views(names@) == secret_keys(namespace@, compose.services@),
{
    let ghost groups = compose.services@.map_values(
        |service: (String, Service)| service_secret_keys(namespace@, service),
    );
    let mut names: Vec<String> = Vec::new();
    let mut i: usize = 0;
    while i < compose.services.len()
        invariant
            i <= compose.services.len(),
            groups == compose.services@.map_values(
                |service: (String, Service)| service_secret_keys(namespace@, service),
            ),
            views(names@) == groups.take(i as int).flatten(),
        decreases compose.services.len() - i,
    {
        let service = &compose.services[i];
        let ghost group = groups[i as int];
        let ghost before = views(names@);
        proof {
            assert(groups.take(i + 1) =~= groups.take(i as int).push(group));
            groups.take(i as int).lemma_flatten_push(group);
        }
        if let Some(secrets) = &service.1.secrets {
            let mut j: usize = 0;
            while j < secrets.len()
                invariant
                    j <= secrets.len(),
                    group == secrets@.map_values(
                        |secret: ServiceSecret|
                            secret_key(namespace@, service.0@, secret_source(secret)),
                    ),
                    views(names@) == before + group.take(j as int),
                decreases secrets.len() - j,
            {
                let source = match &secrets[j] {
                    ServiceSecret::NameOnly(name) => name.as_str(),
                    ServiceSecret::Detailed(detail) => detail.source.as_str(),
                };
                let name = secret_name(namespace, service.0.as_str(), source);
                proof {
                    lemma_views_push(names@, name);
                }
                names.push(name);
                j = j + 1;
            }
        }
        i = i + 1;
    }
    assert(groups.take(compose.services.len() as int) =~= groups);
    names
}

/// The path under which `key` is listed.
pub fn parent_of(key: &str) -> (path: String)
    ensures
        path@ == parent_path(key@),
{
    text_before_last(key, '/')
}

/// The paths under which `keys` are listed, each once. Wraps
/// `Itertools::into_group_map_by`, which collects the items of an iterator into
/// a `HashMap` from the key that a closure gives each item to the items with
/// that key; the wrapper hands back the keys of that map. A map holds each key
/// once, and it holds the key of every item and no other. In which order a
/// `HashMap` gives its keys is left open.
#[verifier::external_body]
fn grouped_parents(keys: &Vec<String>) -> (paths: Vec<String>)
    ensures
        views(paths@).no_duplicates(),
        views(paths@).to_set() == views(keys@).map_values(|key: Seq<char>| parent_path(key))
            .to_set(),
{
    keys.iter().into_group_map_by(|key| parent_of(key.as_str())).into_keys().collect()
}

/// The paths to list for the secrets that the services of `compose` refer to, in
/// `namespace`: the path of each secret's key, each path once, in no particular
/// order.
pub fn secret_paths(compose: &ComposeFile, namespace: &str) -> (paths: Vec<String>)
    ensures
        views(paths@).no_duplicates(),
        forall|path: Seq<char>|
            views(paths@).contains(path) <==> exists|i: int|
                0 <= i < secret_keys(namespace@, compose.services@).len() && parent_path(
                    #[trigger] secret_keys(namespace@, compose.services@)[i],
                ) == path,
{
    let names = secret_names(compose, namespace);
    let paths = grouped_parents(&names);
    proof {
        let keys = secret_keys(namespace@, compose.services@);
        let parents = keys.map_values(|key: Seq<char>| parent_path(key));
        assert forall|path: Seq<char>| views(paths@).contains(path) <==> exists|i: int|
            0 <= i < keys.len() && parent_path(#[trigger] keys[i]) == path by {
            assert(views(paths@).to_set().contains(path) <==> parents.to_set().contains(path));
            if parents.contains(path) {
                let i = choose|i: int| 0 <= i < parents.len() && parents[i] == path;
                assert(parent_path(keys[i]) == path);
            }
            if exists|i: int| 0 <= i < keys.len() && parent_path(#[trigger] keys[i]) == path {
                let i = choose|i: int|
                    0 <= i < keys.len() && parent_path(#[trigger] keys[i]) == path;
                assert(parents[i] == path);
            }
        }
    }
    paths
}

/// The environment variable that carries the parameter stored under `key`.
pub fn env_variable(key: &str) -> (name: String)
    ensures
        name@ == env_name(key@),
{
    let flat = replaced(key, '/', '_');
    to_uppercase(flat.as_str())
}

/// The configuration fragment for the secrets stored under `keys`: no services,
/// and for each short name, once, a secret definition that takes the secret
/// from the environment variable of the last key with that short name.
pub fn secrets_manifest(keys: &Vec<String>) -> (manifest: ComposeFile)
    ensures
        manifest.services@.len() == 0,
        manifest.secrets is Some,
        defines(manifest.secrets->0@, manifest_secrets(views(keys@))),
        manifest.well_formed(),
{
    let ghost wanted = views(keys@).map_values(|key: Seq<char>| (short_name(key), env_name(key)));
    let mut pairs: Vec<(String, String)> = Vec::new();
    let mut i: usize = 0;
    while i < keys.len()
        invariant
            i <= keys.len(),
            wanted == views(keys@).map_values(|key: Seq<char>| (short_name(key), env_name(key))),
            views(pairs@) == wanted.take(i as int),
        decreases keys.len() - i,
    {
        let pair = (text_after_last(keys[i].as_str(), '/'), env_variable(keys[i].as_str()));
        proof {
            lemma_views_push(pairs@, pair);
        }
        pairs.push(pair);
        i = i + 1;
    }
    assert(wanted.take(keys.len() as int) =~= wanted);
    let kept = keep_last(&pairs);
    let mut definitions: Vec<(String, SecretDefinition)> = Vec::new();
    let mut j: usize = 0;
    while j < kept.len()
        invariant
            j <= kept.len(),
            defines(definitions@, views(kept@).take(j as int)),
            forall|k: int| 0 <= k < j ==> (#[trigger] definitions[k]).0@ == kept[k].0@,
        decreases kept.len() - j,
    {
        let definition = (
            kept[j].0.clone(),
            SecretDefinition::Environment { environment: kept[j].1.clone() },
        );
        definitions.push(definition);
        j = j + 1;
    }
    ComposeFile { services: Vec::new(), secrets: Some(definitions) }
}

/// The environment that hands over the listed `parameters`, each a name and a
/// value: for each parameter name, once, its environment variable with the value
/// of the last parameter of that name.
pub fn secret_environment(parameters: &Vec<(String, String)>) -> (variables: Vec<(String, String)>)
    ensures
        views(variables@) == secret_variables(views(parameters@)),
{
    let kept = keep_last(parameters);
    let ghost wanted = secret_variables(views(parameters@));
    let mut variables: Vec<(String, String)> = Vec::new();
    let mut i: usize = 0;
    while i < kept.len()
        invariant
            i <= kept.len(),
            views(kept@) == last_wins(views(parameters@)),
            wanted == secret_variables(views(parameters@)),
            views(variables@) == wanted.take(i as int),
        decreases kept.len() - i,
    {
        let variable = (env_variable(kept[i].0.as_str()), kept[i].1.clone());
        proof {
            lemma_views_push(variables@, variable);
        }
        variables.push(variable);
        i = i + 1;
    }
    variables
}

} // verus!
