//! Credentials: where the key comes from, and which files never become candidates.
use std::path::PathBuf;
use vstd::prelude::*;
use vstd::string::*;

use crate::text;

verus! {

/// `std::path::PathBuf`: a path, which the library carries and never looks into.
#[verifier::external_type_specification]
#[verifier::external_body]
pub struct ExPathBuf(std::path::PathBuf);

/// The name of the key, in the environment and in a credential file.
pub const KEY_NAME: &'static str = "TYPESAFE_API_KEY";

/// The name of a project's credential file.
pub const ENV_FILE_NAME: &'static str = ".jrgenv";

/// What was seen in one directory on the way from the current one to the top.
pub struct AncestorDir {
    /// The path that a credential file has in this directory.
    pub env_file: PathBuf,
    /// Whether there is a file at that path.
    pub has_env_file: bool,
    /// Whether the directory has an entry `.git`, a directory or a worktree's file.
    pub has_git: bool,
}

/// Whether directory `i` takes part in the search for a credential file: the
/// current directory always does, its ancestors up to the root of the repository
/// do, and without a repository none of them does.
pub open spec fn is_searched(dirs: Seq<AncestorDir>, i: int) -> bool {
    &&& 0 <= i < dirs.len()
    &&& i == 0 || {
        &&& exists|k: int| 0 <= k < dirs.len() && #[trigger] dirs[k].has_git
        &&& forall|k: int| 0 <= k < i ==> !#[trigger] dirs[k].has_git
    }
}

/// Finds the nearest project credential file without inheriting another
/// project's key. The directories come in order, the current one first.
pub fn discover_env_file(dirs: Vec<AncestorDir>) -> (found: Option<PathBuf>)
    ensures
        match found {
            Some(path) => exists|i: int|
                {
                    &&& #[trigger] is_searched(dirs@, i)
                    &&& dirs@[i].has_env_file
                    &&& path == dirs@[i].env_file
                    &&& forall|k: int| 0 <= k < i ==> !#[trigger] dirs@[k].has_env_file
                },
            None => forall|i: int| #[trigger] is_searched(dirs@, i) ==> !dirs@[i].has_env_file,
        },
{
    let mut in_repository = false;
    let mut n: usize = 0;
    while n < dirs.len() && !in_repository
        invariant
            n <= dirs.len(),
            in_repository <==> exists|k: int| 0 <= k < n && #[trigger] dirs@[k].has_git,
        decreases dirs.len() - n,
    {
        if dirs[n].has_git {
            in_repository = true;
        }
        n += 1;
    }
    let ghost seen = dirs@;
    let mut i: usize = 0;
    while i < dirs.len()
        invariant
            i <= dirs.len(),
            seen == dirs@,
            in_repository <==> exists|k: int| 0 <= k < dirs.len() && #[trigger] dirs@[k].has_git,
            i < dirs.len() ==> is_searched(dirs@, i as int),
            forall|k: int| 0 <= k < i ==> !#[trigger] dirs@[k].has_env_file,
        decreases dirs.len() - i,
    {
        if dirs[i].has_env_file {
            assert(is_searched(seen, i as int));
            let mut dirs = dirs;
            let dir = dirs.remove(i);
            return Some(dir.env_file);
        }
        if !in_repository || dirs[i].has_git {
            assert forall|k: int| #[trigger] is_searched(dirs@, k) implies !dirs@[k].has_env_file by {
                if k > i {
                    assert(!dirs@[i as int].has_git);
                }
            }
            return None;
        }
        i += 1;
    }
    None
}

/// Outside a repository there is no boundary to trust, so only the current directory
/// takes part.
pub proof fn law_outside_a_repository_only_the_current_directory(dirs: Seq<AncestorDir>, i: int)
    requires
        forall|k: int| 0 <= k < dirs.len() ==> !(#[trigger] dirs[k]).has_git,
    ensures
        is_searched(dirs, i) <==> i == 0 && dirs.len() > 0,
{
}

/// Inside a repository the search goes up to its root, that directory included, and no
/// further: a key of what lies outside is never inherited.
pub proof fn law_inside_a_repository_up_to_its_root(dirs: Seq<AncestorDir>, root: int, i: int)
    requires
        0 <= root < dirs.len(),
        dirs[root].has_git,
        forall|k: int| 0 <= k < root ==> !(#[trigger] dirs[k]).has_git,
    ensures
        is_searched(dirs, i) <==> 0 <= i <= root,
{
}

/// The credential file of a run: none if files are switched off, else the one
/// that was named, else the one that was discovered.
pub fn credential_file(disabled: bool, named: Option<PathBuf>, discovered: Option<PathBuf>) -> (file:
    Option<PathBuf>)
    ensures
        file == (if disabled {
            None
        } else if named is Some {
            named
        } else {
            discovered
        }),
{
    if disabled {
        None
    } else {
        match named {
            Some(path) => Some(path),
            None => discovered,
        }
    }
}

/// Why no key was found.
#[derive(Clone, Copy, Debug, PartialEq, Eq, Structural)]
pub enum CredentialError {
    /// The credential file is not in dotenv syntax.
    Syntax,
    /// Neither the environment nor a credential file gives a key.
    Missing,
}

impl CredentialError {
    /// The text that tells the user what is wrong. It quotes nothing of the file.
    pub open spec fn text(self) -> Seq<char> {
        match self {
            CredentialError::Syntax => "Invalid dotenv syntax in credential file"@,
            CredentialError::Missing =>
                "Set TYPESAFE_API_KEY or add it to .jrgenv (or use --env-file). Use --dry-run for local search."@,
        }
    }

    /// The text that tells the user what is wrong.
    pub fn message(&self) -> (message: String)
        ensures
            message@ == self.text(),
    {
        match self {
            CredentialError::Syntax => "Invalid dotenv syntax in credential file".to_owned(),
            CredentialError::Missing =>
                "Set TYPESAFE_API_KEY or add it to .jrgenv (or use --env-file). Use --dry-run for local search.".to_owned(),
        }
    }
}

/// A setting of a dotenv file, its name and its value; none where the file is malformed.
pub type Entry = Option<(String, String)>;

/// The characters of the settings of a dotenv file.
pub open spec fn entries_view(entries: Seq<Entry>) -> Seq<Option<(Seq<char>, Seq<char>)>> {
    Seq::new(
        entries.len(),
        |i: int|
            match entries[i] {
                Some((name, value)) => Some((name@, value@)),
                None => None,
            },
    )
}

/// What of the settings of a dotenv file is settled by the bytes of the file: how many
/// there are, which of them are malformed, their names, and the values into which no
/// variable is substituted. A value into which one is substituted is none here.
pub uninterp spec fn dotenv_settled(bytes: Seq<u8>) -> Seq<
    Option<(Seq<char>, Option<Seq<char>>)>,
>;

/// Whether a setting is as it was settled.
pub open spec fn is_as_settled(
    entry: Option<(Seq<char>, Seq<char>)>,
    settled: Option<(Seq<char>, Option<Seq<char>>)>,
) -> bool {
    match (entry, settled) {
        (None, None) => true,
        (Some((name, value)), Some((settled_name, settled_value))) => {
            &&& name == settled_name
            &&& settled_value is Some ==> value == settled_value->0
        },
        _ => false,
    }
}

/// Whether settings are as they were settled, one by one.
pub open spec fn agrees(
    entries: Seq<Option<(Seq<char>, Seq<char>)>>,
    settled: Seq<Option<(Seq<char>, Option<Seq<char>>)>>,
) -> bool {
    &&& entries.len() == settled.len()
    &&& forall|i: int|
        0 <= i < entries.len() ==> is_as_settled(#[trigger] entries[i], #[trigger] settled[i])
}

/// Whether settings are as they were settled, and every value was.
pub open spec fn agrees_wholly(
    entries: Seq<Option<(Seq<char>, Seq<char>)>>,
    settled: Seq<Option<(Seq<char>, Option<Seq<char>>)>>,
) -> bool {
    &&& entries.len() == settled.len()
    &&& forall|i: int|
        0 <= i < entries.len() ==> #[trigger] settled[i] == match #[trigger] entries[i] {
            Some((name, value)) => Some((name, Some(value))),
            None => None,
        }
}

/// Whether no variable is substituted into any of the values.
pub open spec fn is_fixed(settled: Seq<Option<(Seq<char>, Option<Seq<char>>)>>) -> bool {
    forall|i: int|
        0 <= i < settled.len() ==> ((#[trigger] settled[i]) matches Some((_, value))
            ==> value is Some)
}

/// `dotenvy::from_read_iter` on the contents of a file: the settings in the order of
/// the file, with a `None` for each item that is an error. A `$` that is neither
/// escaped nor in single quotes puts the value of a variable, which may come from the
/// process environment, into a value; all else depends on the bytes alone, and without
/// a `$` in the file there is no such value. What a substitution puts in is not stated.
#[verifier::external_body]
fn read_dotenv(bytes: &Vec<u8>) -> (entries: Vec<Entry>)
    ensures
        agrees(entries_view(entries@), dotenv_settled(bytes@)),
        !bytes@.contains(36u8) ==> agrees_wholly(entries_view(entries@), dotenv_settled(bytes@)),
{
    dotenvy::from_read_iter(bytes.as_slice()).map(|item| item.ok()).collect()
}

/// The value of the first setting with the given name.
pub open spec fn first_value<V>(entries: Seq<Option<(Seq<char>, V)>>, name: Seq<char>) -> Option<V>
    decreases entries.len(),
{
    if entries.len() == 0 {
        None
    } else if first_value(entries.drop_last(), name) is Some {
        first_value(entries.drop_last(), name)
    } else {
        match entries.last() {
            Some((found, value)) => if found == name {
                Some(value)
            } else {
                None
            },
            None => None,
        }
    }
}

/// The key that the settings of a dotenv file give: the first of its name, if it
/// is not blank and nothing in the file is malformed.
pub open spec fn credential(entries: Seq<Option<(Seq<char>, Seq<char>)>>) -> Result<
    Seq<char>,
    CredentialError,
> {
    if exists|i: int| 0 <= i < entries.len() && #[trigger] entries[i] is None {
        Err(CredentialError::Syntax)
    } else {
        match first_value(entries, KEY_NAME@) {
            Some(key) => if text::is_blank(key) {
                Err(CredentialError::Missing)
            } else {
                Ok(key)
            },
            None => Err(CredentialError::Missing),
        }
    }
}

/// Whether a key, or the reason why there is none, is what the settled part of a dotenv
/// file calls for. It leaves the key open only where a variable is substituted into the
/// setting that gives it; such a key is still not blank.
pub open spec fn is_settled_key(
    key: Result<Seq<char>, CredentialError>,
    settled: Seq<Option<(Seq<char>, Option<Seq<char>>)>>,
) -> bool {
    if exists|i: int| 0 <= i < settled.len() && #[trigger] settled[i] is None {
        key == Err::<Seq<char>, _>(CredentialError::Syntax)
    } else {
        match first_value(settled, KEY_NAME@) {
            None => key == Err::<Seq<char>, _>(CredentialError::Missing),
            Some(Some(value)) => key == if text::is_blank(value) {
                Err(CredentialError::Missing)
            } else {
                Ok(value)
            },
            Some(None) => match key {
                Ok(value) => !text::is_blank(value),
                Err(error) => error is Missing,
            },
        }
    }
}

/// The first setting of a name is the same in the settings and in what is settled of
/// them.
proof fn lemma_first_settled(
    entries: Seq<Option<(Seq<char>, Seq<char>)>>,
    settled: Seq<Option<(Seq<char>, Option<Seq<char>>)>>,
    name: Seq<char>,
)
    requires
        agrees(entries, settled),
    ensures
        match (first_value(entries, name), first_value(settled, name)) {
            (None, None) => true,
            (Some(value), Some(settled_value)) => settled_value is Some ==> value
                == settled_value->0,
            _ => false,
        },
    decreases entries.len(),
{
    if entries.len() > 0 {
        let last = entries.len() - 1;
        assert(is_as_settled(entries[last], settled[last]));
        assert forall|i: int| 0 <= i < last implies is_as_settled(
            #[trigger] entries.drop_last()[i],
            #[trigger] settled.drop_last()[i],
        ) by {
            assert(is_as_settled(entries[i], settled[i]));
        }
        lemma_first_settled(entries.drop_last(), settled.drop_last(), name);
    }
}

/// The key that settings give is what is settled of them calls for.
proof fn lemma_settled_key(
    entries: Seq<Option<(Seq<char>, Seq<char>)>>,
    settled: Seq<Option<(Seq<char>, Option<Seq<char>>)>>,
)
    requires
        agrees(entries, settled),
    ensures
        is_settled_key(credential(entries), settled),
{
    lemma_first_settled(entries, settled, KEY_NAME@);
    assert forall|i: int| 0 <= i < entries.len() implies (#[trigger] entries[i] is None
        <==> settled[i] is None) by {
        assert(is_as_settled(entries[i], settled[i]));
    }
    if exists|i: int| 0 <= i < settled.len() && #[trigger] settled[i] is None {
        let i = choose|i: int| 0 <= i < settled.len() && #[trigger] settled[i] is None;
        assert(entries[i] is None);
    }
}

/// The characters of a key, or why there is none.
pub open spec fn key_view(key: Result<String, CredentialError>) -> Result<Seq<char>, CredentialError> {
    match key {
        Ok(key) => Ok(key@),
        Err(error) => Err(error),
    }
}

/// Takes the key from the settings of a dotenv file, leaving every other setting
/// unused.
pub fn key_from_entries(entries: Vec<Entry>) -> (key: Result<String, CredentialError>)
    ensures
        key_view(key) == credential(entries_view(entries@)),
{
    let ghost all = entries_view(entries@);
    let mut key: Option<String> = None;
    let mut i: usize = 0;
    while i < entries.len()
        invariant
            i <= entries.len(),
            all == entries_view(entries@),
            forall|k: int| 0 <= k < i ==> #[trigger] all[k] is Some,
            match key {
                Some(value) => first_value(all.take(i as int), KEY_NAME@) == Some(value@),
                None => first_value(all.take(i as int), KEY_NAME@) is None,
            },
        decreases entries.len() - i,
    {
        assert(all.take(i + 1).drop_last() == all.take(i as int));
        match &entries[i] {
            None => {
                assert(all[i as int] is None);
                return Err(CredentialError::Syntax);
            },
            Some((name, value)) => {
                assert(all[i as int] == Some((name@, value@)));
                if key.is_none() && text::same(name.as_str(), KEY_NAME) {
                    key = Some(value.clone());
                }
            },
        }
        i += 1;
    }
    assert(all.take(i as int) == all);
    match key {
        Some(key) => {
            if text::blank(key.as_str()) {
                Err(CredentialError::Missing)
            } else {
                Ok(key)
            }
        },
        None => Err(CredentialError::Missing),
    }
}

/// Whether a value of the environment variable is used: if it is set and not blank.
pub open spec fn is_usable(environment: Option<Seq<char>>) -> bool {
    match environment {
        Some(key) => !text::is_blank(key),
        None => false,
    }
}

/// Whether a value of the environment variable is used, so that no credential
/// file is read.
pub fn usable(environment: &Option<String>) -> (result: bool)
    ensures
        result == is_usable(match *environment {
            Some(key) => Some(key@),
            None => None,
        }),
{
    match environment {
        Some(key) => !text::blank(key.as_str()),
        None => false,
    }
}

/// Resolves the key: a value of the environment variable that is not blank, else what
/// the contents of the credential file give. Values are data: a `$` that is escaped or
/// in single quotes stands for itself, and nothing is ever executed.
///
/// Where a variable is substituted into the very setting that gives the key, its value
/// may come from the process environment, and only that the key is not blank is stated.
/// In a file without a `$` there is no such setting.
pub fn api_key(environment: Option<String>, file: Option<Vec<u8>>) -> (key: Result<
    String,
    CredentialError,
>)
    ensures
        match environment {
            Some(value) if is_usable(Some(value@)) => key_view(key) == Ok::<_, CredentialError>(
                value@,
            ),
            _ => match file {
                None => key_view(key) == Err::<Seq<char>, _>(CredentialError::Missing),
                Some(bytes) => {
                    &&& is_settled_key(key_view(key), dotenv_settled(bytes@))
                    &&& !bytes@.contains(36u8) ==> is_fixed(dotenv_settled(bytes@))
                },
            },
        },
        key matches Ok(key) ==> !text::is_blank(key@),
{
    if usable(&environment) {
        if let Some(key) = environment {
            return Ok(key);
        }
    }
    match file {
        Some(bytes) => {
            let entries = read_dotenv(&bytes);
            proof {
                let views = entries_view(entries@);
                let settled = dotenv_settled(bytes@);
                lemma_settled_key(views, settled);
                if !bytes@.contains(36u8) {
                    assert forall|i: int| 0 <= i < settled.len() implies ((
                    #[trigger] settled[i]) matches Some((_, value)) ==> value is Some) by {
                        assert(settled[i] is Some <==> views[i] is Some);
                    }
                }
            }
            key_from_entries(entries)
        },
        None => Err(CredentialError::Missing),
    }
}

/// A setting whose value is settled gives the key as it stands there, whatever the
/// environment holds and whatever is substituted into other settings.
pub proof fn law_settled_values_are_data(
    key: Result<Seq<char>, CredentialError>,
    settled: Seq<Option<(Seq<char>, Option<Seq<char>>)>>,
    value: Seq<char>,
)
    requires
        is_settled_key(key, settled),
        forall|i: int| 0 <= i < settled.len() ==> (#[trigger] settled[i]) is Some,
        first_value(settled, KEY_NAME@) == Some(Some(value)),
        !text::is_blank(value),
    ensures
        key == Ok::<_, CredentialError>(value),
{
}

/// Whether a file name is one that credentials are kept under.
pub open spec fn is_env_file_name(name: Seq<char>) -> bool {
    ||| name == ".env"@
    ||| ".env."@.is_prefix_of(name)
    ||| name == ".jrgenv"@
    ||| ".jrgenv."@.is_prefix_of(name)
}

/// Whether a file name is one that credentials are kept under.
pub fn is_env_name(name: &str) -> (result: bool)
    ensures
        result == is_env_file_name(name@),
{
    text::same(name, ".env") || text::starts_with(name, ".env.") || text::same(name, ".jrgenv")
        || text::starts_with(name, ".jrgenv.")
}

/// A path with every symbolic link followed.
pub struct ResolvedPath {
    /// The path, in the encoding of the operating system.
    pub bytes: Vec<u8>,
    /// The final component, if there is one and it is Unicode.
    pub name: Option<String>,
}

/// What is known of the path of a file that the search reports.
pub struct SeenPath {
    /// The final component, if there is one and it is Unicode.
    pub name: Option<String>,
    /// The path with its links followed, if the file could be resolved.
    pub resolved: Option<ResolvedPath>,
}

/// Whether a final component is one that credentials are kept under.
pub open spec fn has_env_name(name: Option<String>) -> bool {
    match name {
        Some(name) => is_env_file_name(name@),
        None => false,
    }
}

fn env_named(name: &Option<String>) -> (result: bool)
    ensures
        result == has_env_name(*name),
{
    match name {
        Some(name) => is_env_name(name.as_str()),
        None => false,
    }
}

/// Whether two byte strings are the same.
fn same_bytes(a: &Vec<u8>, b: &Vec<u8>) -> (result: bool)
    ensures
        result == (a@ == b@),
{
    if a.len() != b.len() {
        return false;
    }
    let mut i: usize = 0;
    while i < a.len()
        invariant
            i <= a.len() == b.len(),
            forall|k: int| 0 <= k < i ==> a@[k] == b@[k],
        decreases a.len() - i,
    {
        if a[i] != b[i] {
            return false;
        }
        i += 1;
    }
    assert(a@ == b@);
    true
}

/// The files that stay out of candidate output even when explicit paths bypass
/// every glob.
pub struct Exclusions {
    env_file: Option<Vec<u8>>,
}

impl View for Exclusions {
    type V = Option<Seq<u8>>;

    /// The resolved path of the credential file that was loaded, if there is one.
    closed spec fn view(&self) -> Option<Seq<u8>> {
        match self.env_file {
            Some(path) => Some(path@),
            None => None,
        }
    }
}

/// Whether a file is kept out, by its own name, by the name of what it resolves
/// to, or because it resolves to the credential file.
pub open spec fn is_excluded(env_file: Option<Seq<u8>>, path: SeenPath) -> bool {
    ||| has_env_name(path.name)
    ||| match path.resolved {
        Some(resolved) => env_file == Some(resolved.bytes@) || has_env_name(resolved.name),
        None => false,
    }
}

/// A file under a credential name stays out, and so does every alias of one and every
/// alias of the credential file that was loaded, whatever the file is called.
pub proof fn law_credentials_stay_out(env_file: Option<Seq<u8>>, path: SeenPath)
    requires
        has_env_name(path.name) || (path.resolved matches Some(resolved) && (has_env_name(
            resolved.name,
        ) || env_file == Some(resolved.bytes@))),
    ensures
        is_excluded(env_file, path),
{
}

impl Exclusions {
    /// Remembers the resolved path of the credential file, so that alternate
    /// spellings cannot expose it.
    pub fn new(env_file: Option<Vec<u8>>) -> (exclusions: Self)
        ensures
            exclusions@ == (match env_file {
                Some(path) => Some(path@),
                None => None,
            }),
    {
        Exclusions { env_file }
    }

    /// Whether the file is kept out: by a credential name, or as an alias of the
    /// credential file.
    pub fn contains(&self, path: &SeenPath) -> (result: bool)
        ensures
            result == is_excluded(self@, *path),
    {
        if env_named(&path.name) {
            return true;
        }
        match &path.resolved {
            Some(resolved) => {
                if let Some(env_file) = &self.env_file {
                    if same_bytes(env_file, &resolved.bytes) {
                        return true;
                    }
                }
                env_named(&resolved.name)
            },
            None => false,
        }
    }
}

/// The first setting of a name decides: those before it have other names, and those
/// after it do not matter.
pub proof fn law_the_first_setting_decides<V>(
    entries: Seq<Option<(Seq<char>, V)>>,
    name: Seq<char>,
    i: int,
)
    requires
        0 <= i <= entries.len(),
        forall|k: int|
            0 <= k < i ==> ((#[trigger] entries[k]) matches Some((other, _)) ==> other != name),
    ensures
        i < entries.len() ==> (entries[i] matches Some((found, value)) ==> found == name
            ==> first_value(entries, name) == Some(value)),
        i == entries.len() ==> first_value(entries, name) is None,
    decreases entries.len(),
{
    if entries.len() > 0 {
        let rest = entries.drop_last();
        let n = if i < rest.len() {
            i
        } else {
            rest.len() as int
        };
        assert forall|k: int| 0 <= k < n implies ((#[trigger] rest[k]) matches Some((other, _))
            ==> other != name) by {
            assert(entries[k] == rest[k]);
        }
        law_the_first_setting_decides(rest, name, n);
        if i == entries.len() {
            assert(entries[entries.len() - 1] == entries.last());
        }
    }
}

/// What settings give: nothing if one is malformed; else the value of the first setting
/// of the key, if there is one and it is not blank.
pub proof fn law_settings_give_the_key(entries: Seq<Option<(Seq<char>, Seq<char>)>>, i: int)
    requires
        0 <= i <= entries.len(),
        forall|k: int|
            0 <= k < i ==> ((#[trigger] entries[k]) matches Some((other, _)) ==> other
                != "TYPESAFE_API_KEY"@),
        i < entries.len() ==> (entries[i] matches Some((found, _)) && found
            == "TYPESAFE_API_KEY"@),
    ensures
        (exists|k: int| 0 <= k < entries.len() && #[trigger] entries[k] is None) ==> credential(
            entries,
        ) == Err::<Seq<char>, _>(CredentialError::Syntax),
        (forall|k: int| 0 <= k < entries.len() ==> #[trigger] entries[k] is Some) ==> credential(
            entries,
        ) == if i < entries.len() && !text::is_blank((entries[i]->0).1) {
            Ok((entries[i]->0).1)
        } else {
            Err(CredentialError::Missing)
        },
{
    law_the_first_setting_decides(entries, "TYPESAFE_API_KEY"@, i);
}

/// Why a credential file gives no key: because a setting is malformed, or, if none is,
/// because there is no setting of the key or a blank one.
pub proof fn law_why_there_is_no_key(
    key: Result<Seq<char>, CredentialError>,
    settled: Seq<Option<(Seq<char>, Option<Seq<char>>)>>,
)
    requires
        is_settled_key(key, settled),
    ensures
        (exists|k: int| 0 <= k < settled.len() && #[trigger] settled[k] is None) <==> key
            == Err::<Seq<char>, _>(CredentialError::Syntax),
        (forall|k: int|
            0 <= k < settled.len() ==> ((#[trigger] settled[k]) matches Some((name, _)) && name
                != "TYPESAFE_API_KEY"@)) ==> key == Err::<Seq<char>, _>(CredentialError::Missing),
        key matches Ok(value) ==> !text::is_blank(value),
{
    if forall|k: int|
        0 <= k < settled.len() ==> ((#[trigger] settled[k]) matches Some((name, _)) && name
            != "TYPESAFE_API_KEY"@) {
        law_the_first_setting_decides(settled, "TYPESAFE_API_KEY"@, settled.len() as int);
    }
}

/// Which names credentials are kept under: `.env` and `.jrgenv`, by themselves or with
/// anything after a further dot, and no others.
pub proof fn law_credential_names(name: Seq<char>, suffix: Seq<char>)
    ensures
        is_env_file_name(".env"@),
        is_env_file_name(".env."@ + suffix),
        is_env_file_name(".jrgenv"@),
        is_env_file_name(".jrgenv."@ + suffix),
        is_env_file_name(name) ==> {
            ||| name == ".env"@
            ||| name == ".jrgenv"@
            ||| name == ".env."@ + name.skip(5)
            ||| name == ".jrgenv."@ + name.skip(8)
        },
{
    reveal_strlit(".env.");
    reveal_strlit(".jrgenv.");
    assert((".env."@ + suffix).subrange(0, 5) =~= ".env."@);
    assert((".jrgenv."@ + suffix).subrange(0, 8) =~= ".jrgenv."@);
    if ".env."@.is_prefix_of(name) {
        assert(name =~= ".env."@ + name.skip(5));
    }
    if ".jrgenv."@.is_prefix_of(name) {
        assert(name =~= ".jrgenv."@ + name.skip(8));
    }
}

/// What stays out, and nothing else: a file under a credential name, one that resolves
/// to such a name, and one that resolves to the credential file.
pub proof fn law_what_stays_out(
    env_file: Option<Seq<u8>>,
    name: Option<String>,
    resolved: ResolvedPath,
)
    ensures
        is_excluded(env_file, SeenPath { name, resolved: None }) <==> (name matches Some(name)
            && is_env_file_name(name@)),
        is_excluded(env_file, SeenPath { name, resolved: Some(resolved) }) <==> {
            ||| name matches Some(name) && is_env_file_name(name@)
            ||| resolved.name matches Some(name) && is_env_file_name(name@)
            ||| env_file matches Some(path) && path == resolved.bytes@
        },
{
}

/// An environment value is used exactly if it holds something but white space.
pub proof fn law_environment_values(value: Seq<char>)
    ensures
        is_usable(Some(value)) <==> exists|i: int|
            0 <= i < value.len() && !text::is_white(#[trigger] value[i]),
        !is_usable(None),
{
}

/// What settings hold, one by one.
pub proof fn law_entries_view(entries: Seq<Entry>, i: int)
    requires
        0 <= i < entries.len(),
    ensures
        entries_view(entries).len() == entries.len(),
        match entries[i] {
            Some((name, value)) => entries_view(entries)[i] == Some((name@, value@)),
            None => entries_view(entries)[i] is None,
        },
{
}

} // verus!
