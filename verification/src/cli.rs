//! Command-line requests and the decisions made on them before any I/O:
//! which vault and database a command works on.

use vstd::prelude::*;

use crate::error::Error;
use crate::text::{chars_of, concat, lines, next_line, string_of, substring};

verus! {

/// The command line: a vault, a data directory, and a command.
#[derive(Debug, Clone, PartialEq)]
pub struct Cli {
    pub vault: Option<String>,
    pub data_dir: Option<String>,
    pub command: Command,
}

/// The subcommands.
#[derive(Debug, Clone, PartialEq)]
pub enum Command {
    Parse { pretty: bool },
    Resolve { name: String },
    Index,
    Stats,
    Search { query: String, limit: i64 },
    Rank { top: usize },
    Neighbors { id: String, depth: usize, directed: bool },
    Path { from: String, to: String, max_depth: usize, directed: bool },
    Shared { a: String, b: String, directed: bool },
    Subgraph { ids: Vec<String>, depth: usize, directed: bool },
}

/// What a command is to do, with the paths it works on settled.
#[derive(Debug, Clone, PartialEq)]
pub enum Action {
    Parse { vault: String, pretty: bool },
    Resolve { vault: String, name: String },
    Index { vault: String, data_dir: String, db_path: String },
    Stats { db_path: String },
    Search { db_path: String, query: String, limit: i64 },
    Rank { db_path: String, top: usize },
    Neighbors { db_path: String, id: String, depth: usize, directed: bool },
    Path { db_path: String, from: String, to: String, max_depth: usize, directed: bool },
    Shared { db_path: String, a: String, b: String, directed: bool },
    Subgraph { db_path: String, ids: Vec<String>, depth: usize, directed: bool },
}

/// The first line of `s` (empty when `s` has none).
pub open spec fn first_line_of(s: Seq<char>) -> Seq<char> {
    if lines(s).len() > 0 {
        lines(s)[0]
    } else {
        Seq::empty()
    }
}

/// The first line of `s`, or the empty string when `s` has none.
pub fn first_line(s: &str) -> (r: String)
    ensures
        r@ == first_line_of(s@),
{
    let v = chars_of(s);
    if v.len() == 0 {
        return String::new();
    }
    let (lo, hi, _next) = next_line(&v, 0);
    substring(&v, lo, hi)
}

/// `base` joined with the relative path `rel`, as `PathBuf::join` joins them:
/// a `/` goes between them unless `base` is empty or already ends with one.
pub open spec fn join_spec(base: Seq<char>, rel: Seq<char>) -> Seq<char> {
    if base.len() == 0 || base.last() == '/' {
        base + rel
    } else {
        base + seq!['/'] + rel
    }
}

/// `base` joined with the relative path `rel` (which has no leading `/`).
pub fn join_path(base: &str, rel: &str) -> (r: String)
    ensures
        r@ == join_spec(base@, rel@),
{
    let v = chars_of(base);
    if v.len() == 0 || v[v.len() - 1] == '/' {
        concat(base, rel)
    } else {
        proof {
            reveal_strlit("/");
        }
        let b = concat(base, "/");
        assert(base@ + "/"@ =~= base@ + seq!['/']);
        concat(b.as_str(), rel)
    }
}

/// What is reported as the path when no vault was given.
pub open spec fn no_vault_hint() -> Seq<char> {
    "(provide --vault or set KG_VAULT_PATH)"@
}

/// The vault given, or the error that none was.
pub fn require_vault(vault: Option<String>) -> (r: Result<String, Error>)
    ensures
        match vault {
            Some(v) => r == Ok::<String, Error>(v),
            None => r matches Err(Error::VaultNotFound { path }) && path@ == no_vault_hint(),
        },
{
    match vault {
        Some(v) => Ok(v),
        None => Err(Error::VaultNotFound { path: string_of(chars_of("(provide --vault or set KG_VAULT_PATH)").as_slice()) }),
    }
}

/// The data directory: the one given, else `.kg` inside the vault.
pub open spec fn data_dir_spec(vault: Seq<char>, data_dir: Option<Seq<char>>) -> Seq<char> {
    match data_dir {
        Some(d) => d,
        None => join_spec(vault, ".kg"@),
    }
}

/// The data directory for `vault`: `data_dir` when given, else `<vault>/.kg`.
pub fn resolve_data_dir(vault: &str, data_dir: Option<String>) -> (r: String)
    ensures
        r@ == data_dir_spec(
            vault@,
            match data_dir {
                Some(d) => Some(d@),
                None => None,
            },
        ),
{
    match data_dir {
        Some(d) => d,
        None => join_path(vault, ".kg"),
    }
}

/// The database file of a vault.
pub open spec fn db_path_spec(vault: Seq<char>, data_dir: Option<String>) -> Seq<char> {
    join_spec(
        data_dir_spec(
            vault,
            match data_dir {
                Some(d) => Some(d@),
                None => None,
            },
        ),
        "kg.db"@,
    )
}

/// The views of a list of strings.
pub open spec fn strings_view(v: Seq<String>) -> Seq<Seq<char>> {
    v.map_values(|s: String| s@)
}

/// `a` is the action for `cmd` on the vault `vault` with the database at `db`
/// (in the data directory `dir`).
pub open spec fn action_for(
    a: Action,
    cmd: Command,
    vault: Seq<char>,
    dir: Seq<char>,
    db: Seq<char>,
) -> bool {
    match cmd {
        Command::Parse { pretty } => a matches Action::Parse { vault: v, pretty: p } && v@ == vault
            && p == pretty,
        Command::Resolve { name } => a matches Action::Resolve { vault: v, name: n } && v@ == vault
            && n@ == name@,
        Command::Index => a matches Action::Index { vault: v, data_dir: d, db_path: p } && v@
            == vault && d@ == dir && p@ == db,
        Command::Stats => a matches Action::Stats { db_path: p } && p@ == db,
        Command::Search { query, limit } => a matches Action::Search { db_path: p, query: q, limit: l }
            && p@ == db && q@ == query@ && l == limit,
        Command::Rank { top } => a matches Action::Rank { db_path: p, top: t } && p@ == db && t
            == top,
        Command::Neighbors { id, depth, directed } => a matches Action::Neighbors {
            db_path: p,
            id: i,
            depth: d,
            directed: r,
        } && p@ == db && i@ == id@ && d == depth && r == directed,
        Command::Path { from, to, max_depth, directed } => a matches Action::Path {
            db_path: p,
            from: f,
            to: t,
            max_depth: m,
            directed: r,
        } && p@ == db && f@ == from@ && t@ == to@ && m == max_depth && r == directed,
        Command::Shared { a: x, b: y, directed } => a matches Action::Shared {
            db_path: p,
            a: a2,
            b: b2,
            directed: r,
        } && p@ == db && a2@ == x@ && b2@ == y@ && r == directed,
        Command::Subgraph { ids, depth, directed } => a matches Action::Subgraph {
            db_path: p,
            ids: s,
            depth: d,
            directed: r,
        } && p@ == db && strings_view(s@) == strings_view(ids@) && d == depth && r == directed,
    }
}

/// Copies of a list of strings.
fn copy_strings(v: &Vec<String>) -> (r: Vec<String>)
    ensures
        strings_view(r@) == strings_view(v@),
{
    let mut r: Vec<String> = Vec::new();
    let mut i: usize = 0;
    while i < v.len()
        invariant
            i <= v@.len(),
            strings_view(r@) == strings_view(v@).subrange(0, i as int),
        decreases v@.len() - i,
    {
        let ghost o = strings_view(r@);
        r.push(v[i].clone());
        assert(strings_view(r@) =~= o.push(v@[i as int]@));
        assert(strings_view(v@).subrange(0, i + 1) =~= strings_view(v@).subrange(0, i as int).push(
            v@[i as int]@,
        ));
        i = i + 1;
    }
    assert(strings_view(v@).subrange(0, v@.len() as int) =~= strings_view(v@));
    r
}

/// Settles what a command line asks for. Every command needs a vault; the database
/// is `kg.db` in the data directory (`--data-dir`, else `<vault>/.kg`).
pub fn dispatch(cli: Cli) -> (r: Result<Action, Error>)
    ensures
        match cli.vault {
            None => r matches Err(Error::VaultNotFound { path }) && path@ == no_vault_hint(),
            Some(v) => r matches Ok(a) && action_for(
                a,
                cli.command,
                v@,
                data_dir_spec(
                    v@,
                    match cli.data_dir {
                        Some(d) => Some(d@),
                        None => None,
                    },
                ),
                db_path_spec(v@, cli.data_dir),
            ),
        },
{
    let ghost given_dir = cli.data_dir;
    let vault = match require_vault(cli.vault) {
        Ok(v) => v,
        Err(e) => return Err(e),
    };
    let dir = resolve_data_dir(vault.as_str(), cli.data_dir);
    let db_path = join_path(dir.as_str(), "kg.db");
    let action = match cli.command {
        Command::Parse { pretty } => Action::Parse { vault, pretty },
        Command::Resolve { name } => Action::Resolve { vault, name },
        Command::Index => Action::Index { vault, data_dir: dir, db_path },
        Command::Stats => Action::Stats { db_path },
        Command::Search { query, limit } => Action::Search { db_path, query, limit },
        Command::Rank { top } => Action::Rank { db_path, top },
        Command::Neighbors { id, depth, directed } => Action::Neighbors {
            db_path,
            id,
            depth,
            directed,
        },
        Command::Path { from, to, max_depth, directed } => Action::Path {
            db_path,
            from,
            to,
            max_depth,
            directed,
        },
        Command::Shared { a, b, directed } => Action::Shared { db_path, a, b, directed },
        Command::Subgraph { ids, depth, directed } => {
            let ids2 = copy_strings(&ids);
            Action::Subgraph { db_path, ids: ids2, depth, directed }
        },
    };
    Ok(action)
}

} // verus!
