use kg_core::cli::{dispatch, first_line, join_path, require_vault, resolve_data_dir, Action, Cli, Command};
use kg_core::error::Error;

#[test]
fn first_line_of_multiline_text() {
    assert_eq!(first_line("error: bad\nmore detail\n"), "error: bad");
    assert_eq!(first_line(""), "");
}

#[test]
fn join_path_inserts_one_separator() {
    assert_eq!(join_path("/vault", ".kg"), "/vault/.kg");
    assert_eq!(join_path("/vault/", ".kg"), "/vault/.kg");
}

#[test]
fn missing_vault_is_an_error() {
    match require_vault(None) {
        Err(Error::VaultNotFound { path }) => assert!(path.contains("KG_VAULT_PATH")),
        other => panic!("expected VaultNotFound, got {other:?}"),
    }
    assert_eq!(require_vault(Some("/v".into())), Ok("/v".to_string()));
}

#[test]
fn data_dir_defaults_inside_the_vault() {
    assert_eq!(resolve_data_dir("/v", None), "/v/.kg");
    assert_eq!(resolve_data_dir("/v", Some("/data".into())), "/data");
}

#[test]
fn dispatch_settles_database_path() {
    let cli = Cli { vault: Some("/v".into()), data_dir: None, command: Command::Stats };
    assert_eq!(dispatch(cli), Ok(Action::Stats { db_path: "/v/.kg/kg.db".into() }));
}

#[test]
fn dispatch_index_uses_given_data_dir() {
    let cli = Cli { vault: Some("/v".into()), data_dir: Some("/d".into()), command: Command::Index };
    assert_eq!(
        dispatch(cli),
        Ok(Action::Index { vault: "/v".into(), data_dir: "/d".into(), db_path: "/d/kg.db".into() })
    );
}

#[test]
fn dispatch_without_vault_fails() {
    let cli = Cli { vault: None, data_dir: None, command: Command::Rank { top: 5 } };
    assert!(matches!(dispatch(cli), Err(Error::VaultNotFound { .. })));
}

#[test]
fn dispatch_keeps_query_arguments() {
    let cli = Cli {
        vault: Some("/v".into()),
        data_dir: None,
        command: Command::Subgraph { ids: vec!["A".into(), "B".into()], depth: 2, directed: true },
    };
    assert_eq!(
        dispatch(cli),
        Ok(Action::Subgraph {
            db_path: "/v/.kg/kg.db".into(),
            ids: vec!["A".into(), "B".into()],
            depth: 2,
            directed: true,
        })
    );
}
