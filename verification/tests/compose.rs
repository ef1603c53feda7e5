use ssm_fs::compose::{
    env_variable, parent_of, secret_environment, secret_name, secret_names, secret_paths,
    secrets_manifest, ComposeFile, SecretDefinition, Service, ServiceSecret, ServiceSecretDetail,
};

fn by_name(name: &str) -> ServiceSecret {
    ServiceSecret::NameOnly(name.to_string())
}

fn detailed(source: &str) -> ServiceSecret {
    ServiceSecret::Detailed(ServiceSecretDetail {
        source: source.to_string(),
        target: Some("/run/secrets/x".to_string()),
        uid: None,
        gid: None,
        mode: Some(0o400),
    })
}

fn service(name: &str, secrets: Option<Vec<ServiceSecret>>) -> (String, Service) {
    (name.to_string(), Service { secrets })
}

fn sample() -> ComposeFile {
    ComposeFile {
        services: vec![
            service("web", Some(vec![by_name("db_password"), detailed("api_key")])),
            service("idle", None),
            service("worker", Some(vec![by_name("db_password"), by_name("nested/token")])),
            service("bare", Some(Vec::new())),
        ],
        secrets: Some(vec![("db_password".to_string(), SecretDefinition::External { external: Some(true) })]),
    }
}

fn environment(name: &str, variable: &str) -> (String, SecretDefinition) {
    (name.to_string(), SecretDefinition::Environment { environment: variable.to_string() })
}

fn pair(name: &str, value: &str) -> (String, String) {
    (name.to_string(), value.to_string())
}

#[test]
fn a_secret_is_stored_below_its_namespace_and_service() {
    assert_eq!(secret_name("prod", "web", "db_password"), "/apps/prod/web/secrets/db_password");
    assert_eq!(secret_name("", "", ""), "/apps///secrets/");
}

#[test]
fn every_reference_of_every_service_is_named_in_order() {
    assert_eq!(
        secret_names(&sample(), "prod"),
        vec![
            "/apps/prod/web/secrets/db_password".to_string(),
            "/apps/prod/web/secrets/api_key".to_string(),
            "/apps/prod/worker/secrets/db_password".to_string(),
            "/apps/prod/worker/secrets/nested/token".to_string(),
        ]
    );
}

#[test]
fn a_configuration_without_references_names_nothing() {
    let compose = ComposeFile { services: vec![service("idle", None)], secrets: None };
    assert_eq!(secret_names(&compose, "prod"), Vec::<String>::new());
    assert_eq!(secret_paths(&compose, "prod"), Vec::<String>::new());
}

#[test]
fn the_parent_of_a_key_is_what_precedes_its_last_separator() {
    assert_eq!(parent_of("/apps/prod/web/secrets/db_password"), "/apps/prod/web/secrets");
    assert_eq!(parent_of("/top"), "");
    assert_eq!(parent_of("none"), "none");
    assert_eq!(parent_of("a/b/"), "a/b");
}

#[test]
fn each_parent_path_is_listed_once() {
    let mut paths = secret_paths(&sample(), "prod");
    paths.sort();
    assert_eq!(
        paths,
        vec![
            "/apps/prod/web/secrets".to_string(),
            "/apps/prod/worker/secrets".to_string(),
            "/apps/prod/worker/secrets/nested".to_string(),
        ]
    );
}

#[test]
fn an_environment_variable_is_the_key_flattened_and_raised() {
    assert_eq!(env_variable("/apps/prod/web/secrets/db_password"), "_APPS_PROD_WEB_SECRETS_DB_PASSWORD");
    assert_eq!(env_variable("a-b.c/d"), "A-B.C_D");
    assert_eq!(env_variable(""), "");
}

#[test]
fn letters_beyond_ascii_are_raised_too() {
    assert_eq!(env_variable("/straße/é"), "_STRASSE_É");
}

#[test]
fn the_fragment_defines_each_secret_from_its_environment_variable() {
    let keys = vec![
        "/apps/prod/web/secrets/db_password".to_string(),
        "/apps/prod/web/secrets/api_key".to_string(),
    ];
    assert_eq!(
        secrets_manifest(&keys),
        ComposeFile {
            services: Vec::new(),
            secrets: Some(vec![
                environment("db_password", "_APPS_PROD_WEB_SECRETS_DB_PASSWORD"),
                environment("api_key", "_APPS_PROD_WEB_SECRETS_API_KEY"),
            ]),
        }
    );
}

#[test]
fn a_short_name_used_twice_is_defined_by_its_last_key() {
    let keys = secret_names(&sample(), "prod");
    assert_eq!(
        secrets_manifest(&keys).secrets,
        Some(vec![
            environment("api_key", "_APPS_PROD_WEB_SECRETS_API_KEY"),
            environment("db_password", "_APPS_PROD_WORKER_SECRETS_DB_PASSWORD"),
            environment("token", "_APPS_PROD_WORKER_SECRETS_NESTED_TOKEN"),
        ])
    );
}

#[test]
fn the_fragment_of_no_keys_defines_nothing() {
    assert_eq!(secrets_manifest(&Vec::new()), ComposeFile { services: Vec::new(), secrets: Some(Vec::new()) });
}

#[test]
fn every_listed_parameter_is_handed_over_by_its_variable() {
    let listed = vec![
        pair("/apps/prod/web/secrets/db_password", "hunter2"),
        pair("/apps/prod/web/secrets/unreferenced", "kept"),
    ];
    assert_eq!(
        secret_environment(&listed),
        vec![
            pair("_APPS_PROD_WEB_SECRETS_DB_PASSWORD", "hunter2"),
            pair("_APPS_PROD_WEB_SECRETS_UNREFERENCED", "kept"),
        ]
    );
}

#[test]
fn a_parameter_listed_twice_is_handed_over_with_its_last_value() {
    let listed = vec![pair("/a/x", "old"), pair("/a/y", "1"), pair("/a/x", "new")];
    assert_eq!(secret_environment(&listed), vec![pair("_A_Y", "1"), pair("_A_X", "new")]);
}

#[test]
fn no_parameters_give_an_empty_environment() {
    assert_eq!(secret_environment(&Vec::new()), Vec::new());
}
