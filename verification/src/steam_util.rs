//! Discovery of a client installation and of its on-disk metadata.
//!
//! Every function here computes over plain values that were already read from
//! disk: probe outcomes, document texts, decoded trees. Reading the files is
//! the caller's business; deciding what they mean is decided, and proved,
//! here. Every fallible lookup surfaces as an explicit error naming what was
//! absent, never as an abort.

use vstd::prelude::*;

use crate::flat_map_all;
use crate::kv::Node;
use crate::kv::node_get;
use crate::kv::vdf_parse;
use crate::kv::spec_parse_u64;
use crate::kv::parse_vdf_text;
use crate::kv::parse_u64;
use crate::path_join;

verus! {

broadcast use vstd::std_specs::hash::group_hash_axioms;

/// Errors surfaced while resolving the client's on-disk state.
#[derive(Debug, Clone, PartialEq)]
pub enum SteamUtilError {
    /// The home directory could not be found.
    HomeDirectoryNotFound,
    /// The client's installation root could not be found.
    SteamDirectoryNotFound,
    /// The compatibility tools directory could not be created.
    CompatibilityToolsDirectoryCreationFailed,
    /// The applications directory could not be found.
    SteamAppsDirectoryNotFound,
    /// The library-folders document could not be found.
    LibraryFoldersVdfNotFound,
    /// The main configuration document could not be found.
    SteamConfigVdfNotFound,
    /// A document could not be parsed; holds a short detail.
    VdfParsingError(String),
    /// A lookup failed; holds the key that was absent.
    MissingKeyError(String),
}

impl SteamUtilError {
    /// A human-readable account of the error. The library's types carry no
    /// formatting machinery, so callers that print use this.
    pub fn describe(&self) -> (r: String)
        ensures
            match self {
                SteamUtilError::HomeDirectoryNotFound => r@ == "Home directory not found"@,
                SteamUtilError::SteamDirectoryNotFound => r@ == "Steam directory not found"@,
                SteamUtilError::CompatibilityToolsDirectoryCreationFailed => r@
                    == "Steam compatibility tools directory could not be created!"@,
                SteamUtilError::SteamAppsDirectoryNotFound => r@
                    == "Steam apps directory not found"@,
                SteamUtilError::LibraryFoldersVdfNotFound => r@
                    == "Steam library folders VDF file not found"@,
                SteamUtilError::SteamConfigVdfNotFound => r@ == "Steam config file not found"@,
                SteamUtilError::VdfParsingError(msg) => r@ == "Failed to parse VDF file: "@
                    + msg@,
                SteamUtilError::MissingKeyError(key) => r@ == "Missing key: "@ + key@,
            },
    {
        match self {
            SteamUtilError::HomeDirectoryNotFound => "Home directory not found".to_owned(),
            SteamUtilError::SteamDirectoryNotFound => "Steam directory not found".to_owned(),
            SteamUtilError::CompatibilityToolsDirectoryCreationFailed => {
                "Steam compatibility tools directory could not be created!".to_owned()
            },
            SteamUtilError::SteamAppsDirectoryNotFound => {
                "Steam apps directory not found".to_owned()
            },
            SteamUtilError::LibraryFoldersVdfNotFound => {
                "Steam library folders VDF file not found".to_owned()
            },
            SteamUtilError::SteamConfigVdfNotFound => "Steam config file not found".to_owned(),
            SteamUtilError::VdfParsingError(msg) => {
                let mut s = "Failed to parse VDF file: ".to_owned();
                s.append(msg.as_str());
                s
            },
            SteamUtilError::MissingKeyError(key) => {
                let mut s = "Missing key: ".to_owned();
                s.append(key.as_str());
                s
            },
        }
    }
}

/// Utility for working with the client's directories and settings.
pub struct SteamUtil {
    pub steam_path: String,
}

/// An installed compatibility runtime, as its descriptor document declares it.
#[derive(Debug, Clone, PartialEq)]
pub struct CompatibilityTool {
    pub path: String,
    pub directory_name: String,
    pub internal_name: String,
    pub display_name: String,
    pub from_os_list: String,
    pub to_os_list: String,
}

/// One installed title or user shortcut.
#[derive(Debug, Clone, PartialEq)]
pub struct SteamApp {
    pub shortcut: bool,
    pub app_id: u64,
    pub name: String,
}

/// The outcome of probing one candidate installation root: the probed path
/// and whether the two documents that mark a usable installation exist.
#[derive(Debug, Clone, PartialEq)]
pub struct CandidateProbe {
    pub path: String,
    pub has_main_config: bool,
    pub has_library_folders: bool,
}

/// A candidate is accepted only with both marker documents present: a fresh,
/// never-logged-in installation lacks the library-folders document.
pub open spec fn probe_ok(p: CandidateProbe) -> bool {
    p.has_main_config && p.has_library_folders
}

/// The first accepted candidate at or after `i`.
pub open spec fn first_accepted(probes: Seq<CandidateProbe>, i: int) -> Option<int>
    decreases probes.len() - i,
{
    if i < 0 || i >= probes.len() {
        None
    } else if probe_ok(probes[i]) {
        Some(i)
    } else {
        first_accepted(probes, i + 1)
    }
}

impl SteamUtil {
    /// Creates a new instance with the given installation root.
    pub fn new(steam_home: String) -> (r: Self)
        ensures
            r.steam_path == steam_home,
    {
        Self { steam_path: steam_home }
    }

    /// Chooses the installation root among probed candidates: the first
    /// candidate carrying both marker documents wins. Without a home
    /// directory (no override and neither environment value) nothing is
    /// probed.
    pub fn find_steam_directory(
        user_home_directory: Option<String>,
        profile_env: Option<String>,
        home_env: Option<String>,
        probes: &Vec<CandidateProbe>,
    ) -> (r: Result<String, SteamUtilError>)
        ensures
            match r {
                Ok(p) => (user_home_directory is Some || profile_env is Some || home_env is Some)
                    && (first_accepted(probes@, 0) matches Some(i) && p == probes@[i].path),
                Err(SteamUtilError::HomeDirectoryNotFound) => user_home_directory is None
                    && profile_env is None && home_env is None,
                Err(SteamUtilError::SteamDirectoryNotFound) => (user_home_directory is Some
                    || profile_env is Some || home_env is Some) && first_accepted(probes@, 0) is None,
                _ => false,
            },
    {
        let have_home = user_home_directory.is_some() || profile_env.is_some()
            || home_env.is_some();
        if !have_home {
            return Err(SteamUtilError::HomeDirectoryNotFound);
        }
        let n = probes.len();
        let mut i: usize = 0;
        while i < n
            invariant
                n == probes@.len(),
                0 <= i <= n,
                user_home_directory is Some || profile_env is Some || home_env is Some,
                first_accepted(probes@, 0) == first_accepted(probes@, i as int),
            decreases n - i,
        {
            if probes[i].has_main_config && probes[i].has_library_folders {
                assert(first_accepted(probes@, i as int) == Some(i as int));
                return Ok(probes[i].path.clone());
            }
            i = i + 1;
        }
        Err(SteamUtilError::SteamDirectoryNotFound)
    }

    /// Finds the installation root among probed candidates, without an
    /// explicit home-directory override.
    pub fn find(
        profile_env: Option<String>,
        home_env: Option<String>,
        probes: &Vec<CandidateProbe>,
    ) -> (r: Result<Self, SteamUtilError>)
        ensures
            match r {
                Ok(u) => (profile_env is Some || home_env is Some) && (first_accepted(probes@, 0)
                    matches Some(i) && u.steam_path == probes@[i].path),
                Err(SteamUtilError::HomeDirectoryNotFound) => profile_env is None && home_env
                    is None,
                Err(SteamUtilError::SteamDirectoryNotFound) => (profile_env is Some || home_env
                    is Some) && first_accepted(probes@, 0) is None,
                _ => false,
            },
    {
        match Self::find_steam_directory(None, profile_env, home_env, probes) {
            Ok(steam_home) => Ok(Self { steam_path: steam_home }),
            Err(err) => Err(err),
        }
    }

    /// The directory holding installed compatibility tools. Creating it when
    /// it is absent is the caller's business.
    pub fn get_steam_compatibility_tools_directory(&self) -> (r: String)
        ensures
            r@ == self.steam_path@ + "/"@ + "compatibilitytools.d"@,
    {
        path_join(self.steam_path.as_str(), "compatibilitytools.d")
    }
}

/// The applications and manifest texts found in one library folder: whether
/// its applications subdirectory exists, and the text of every manifest file
/// found there, in scan order.
#[derive(Debug, Clone, PartialEq)]
pub struct LibraryFolderScan {
    pub steamapps_exists: bool,
    pub manifest_texts: Vec<String>,
}

/// The library-folder path one root entry declares: its value must be an
/// object whose `path` child is a string. An empty path contributes nothing.
pub open spec fn folder_paths_of(entry: (String, Node)) -> Option<Seq<String>> {
    match node_get(entry.1, "path"@, false) {
        Some(n) => match n {
            Node::Str(p) => Some(if p@.len() == 0 { Seq::<String>::empty() } else { seq![p] }),
            Node::Obj(_) => None,
        },
        None => None,
    }
}

/// `folder_paths_of`, as a value.
pub open spec fn fpo_fn() -> spec_fn((String, Node)) -> Option<Seq<String>> {
    |e: (String, Node)| folder_paths_of(e)
}

/// All library-folder paths a parsed library-folders document declares.
pub open spec fn library_folders_of(root: Node) -> Option<Seq<String>> {
    match root {
        Node::Str(_) => None,
        Node::Obj(es) => flat_map_all(es@, fpo_fn()),
    }
}

/// The application one manifest text declares: the document must parse, and
/// its root object must carry a numeric `appid` string and a `name` string.
pub open spec fn manifest_app(text: String) -> Option<SteamApp> {
    match vdf_parse(text@) {
        Some(pr) => match node_get(pr.1, "appid"@, false) {
            Some(idn) => match idn {
                Node::Str(ids) => match spec_parse_u64(ids@) {
                    Some(id) => match node_get(pr.1, "name"@, false) {
                        Some(nmn) => match nmn {
                            Node::Str(nm) => Some(
                                (SteamApp { shortcut: false, app_id: id, name: nm }),
                            ),
                            Node::Obj(_) => None,
                        },
                        None => None,
                    },
                    None => None,
                },
                Node::Obj(_) => None,
            },
            None => None,
        },
        None => None,
    }
}

/// `manifest_app`, lifted to contribute one application, as a value.
pub open spec fn mao_fn() -> spec_fn(String) -> Option<Seq<SteamApp>> {
    |t: String|
        match manifest_app(t) {
            Some(a) => Some(seq![a]),
            None => None,
        }
}

/// The applications a list of manifest texts declares, in order; nothing when
/// any manifest is malformed.
pub open spec fn manifest_apps_of(texts: Seq<String>) -> Option<Seq<SteamApp>> {
    flat_map_all(texts, mao_fn())
}

/// The applications one library folder contributes: none when its
/// applications subdirectory is absent, else those of all its manifests.
pub open spec fn folder_apps(f: LibraryFolderScan) -> Option<Seq<SteamApp>> {
    if !f.steamapps_exists {
        Some(Seq::<SteamApp>::empty())
    } else {
        manifest_apps_of(f.manifest_texts@)
    }
}

/// `folder_apps`, as a value.
pub open spec fn fap_fn() -> spec_fn(LibraryFolderScan) -> Option<Seq<SteamApp>> {
    |f: LibraryFolderScan| folder_apps(f)
}

/// Every application every library folder contributes, in scan order,
/// duplicates included.
pub open spec fn catalog_apps(folders: Seq<LibraryFolderScan>) -> Option<Seq<SteamApp>> {
    flat_map_all(folders, fap_fn())
}

/// Does some entry carry this application identifier?
pub open spec fn contains_id(s: Seq<SteamApp>, id: u64) -> bool {
    exists|j: int| 0 <= j < s.len() && s[j].app_id == id
}

/// Keeps, in order, each entry whose identifier no earlier entry carries.
pub open spec fn dedup_first(s: Seq<SteamApp>) -> Seq<SteamApp>
    decreases s.len(),
{
    if s.len() == 0 {
        Seq::empty()
    } else {
        if contains_id(s.drop_last(), s.last().app_id) {
            dedup_first(s.drop_last())
        } else {
            dedup_first(s.drop_last()).push(s.last())
        }
    }
}

/// Deduplication keeps exactly the identifiers of its input.
pub proof fn lemma_dedup_same_ids(s: Seq<SteamApp>, id: u64)
    ensures
        contains_id(dedup_first(s), id) == contains_id(s, id),
    decreases s.len(),
{
    if s.len() > 0 {
        lemma_dedup_same_ids(s.drop_last(), id);
        if contains_id(s, id) {
            let j = choose|j: int| 0 <= j < s.len() && s[j].app_id == id;
            if j < s.len() - 1 {
                assert(s.drop_last()[j] == s[j]);
                assert(contains_id(s.drop_last(), id));
            } else {
                assert(s.last().app_id == id);
            }
        }
        if contains_id(s.drop_last(), id) {
            let j = choose|j: int| 0 <= j < s.drop_last().len() && s.drop_last()[j].app_id == id;
            assert(s[j].app_id == id);
            assert(contains_id(s, id));
        }
        if !contains_id(s.drop_last(), s.last().app_id) {
            if contains_id(dedup_first(s), id) {
                let d = dedup_first(s.drop_last()).push(s.last());
                let j = choose|j: int| 0 <= j < d.len() && d[j].app_id == id;
                if j < d.len() - 1 {
                    assert(contains_id(dedup_first(s.drop_last()), id));
                } else {
                    assert(s.last().app_id == id);
                }
            }
            if contains_id(s, id) {
                if s.last().app_id == id {
                    assert(dedup_first(s).last().app_id == id);
                    assert(contains_id(dedup_first(s), id));
                } else {
                    assert(contains_id(s.drop_last(), id));
                    let d0 = dedup_first(s.drop_last());
                    let j = choose|j: int| 0 <= j < d0.len() && d0[j].app_id == id;
                    assert(dedup_first(s)[j].app_id == id);
                    assert(contains_id(dedup_first(s), id));
                }
            }
        } else {
            if contains_id(s, id) {
                if s.last().app_id == id {
                    assert(contains_id(s.drop_last(), id));
                }
            }
        }
    }
}

fn contains_app_id(v: &Vec<SteamApp>, id: u64) -> (r: bool)
    ensures
        r == contains_id(v@, id),
{
    let n = v.len();
    let mut i: usize = 0;
    while i < n
        invariant
            n == v@.len(),
            0 <= i <= n,
            forall|j: int| 0 <= j < i ==> v@[j].app_id != id,
        decreases n - i,
    {
        if v[i].app_id == id {
            return true;
        }
        i = i + 1;
    }
    false
}

/// Keeps, in order, the first occurrence of each application identifier.
fn dedup_apps(all: Vec<SteamApp>) -> (r: Vec<SteamApp>)
    ensures
        r@ == dedup_first(all@),
{
    let n = all.len();
    let mut out: Vec<SteamApp> = Vec::new();
    assert(all@.take(0) =~= Seq::<SteamApp>::empty());
    let mut i: usize = 0;
    while i < n
        invariant
            n == all@.len(),
            0 <= i <= n,
            out@ == dedup_first(all@.take(i as int)),
        decreases n - i,
    {
        proof {
            assert(all@.take(i + 1).drop_last() =~= all@.take(i as int));
            assert(all@.take(i + 1).last() == all@[i as int]);
            lemma_dedup_same_ids(all@.take(i as int), all@[i as int].app_id);
        }
        let id = all[i].app_id;
        if !contains_app_id(&out, id) {
            let a = &all[i];
            out.push(SteamApp { shortcut: a.shortcut, app_id: a.app_id, name: a.name.clone() });
            assert(out@ =~= dedup_first(all@.take(i + 1)));
        }
        i = i + 1;
    }
    proof {
        assert(all@.take(n as int) =~= all@);
    }
    out
}

impl SteamUtil {
    /// Lists library folders from the library-folders document: the path each
    /// root entry declares, empty paths dropped. The containing directory and
    /// the document itself must both exist; each is missing with its own
    /// error.
    #[verifier::loop_isolation(false)]
    pub fn list_library_folders(
        &self,
        steam_apps_directory_exists: bool,
        library_folders_vdf: Option<&String>,
    ) -> (r: Result<Vec<String>, SteamUtilError>)
        ensures
            match r {
                Ok(folders) => steam_apps_directory_exists && (library_folders_vdf matches Some(t)
                    && (vdf_parse(t@) matches Some(pr) && library_folders_of(pr.1) == Some(
                    folders@,
                ))),
                Err(e) => match e {
                    SteamUtilError::SteamAppsDirectoryNotFound => !steam_apps_directory_exists,
                    SteamUtilError::LibraryFoldersVdfNotFound => steam_apps_directory_exists
                        && library_folders_vdf is None,
                    SteamUtilError::VdfParsingError(_) => steam_apps_directory_exists && (
                    library_folders_vdf matches Some(t) && vdf_parse(t@) is None),
                    SteamUtilError::MissingKeyError(s) => s@ == "path"@
                        && steam_apps_directory_exists && (library_folders_vdf matches Some(t) && (
                    vdf_parse(t@) matches Some(pr) && library_folders_of(pr.1) is None)),
                    _ => false,
                },
            },
    {
        if !steam_apps_directory_exists {
            return Err(SteamUtilError::SteamAppsDirectoryNotFound);
        }
        let text = match library_folders_vdf {
            None => {
                return Err(SteamUtilError::LibraryFoldersVdfNotFound);
            },
            Some(t) => t,
        };
        let parsed = parse_vdf_text(text.as_str());
        let root = match parsed {
            None => {
                return Err(SteamUtilError::VdfParsingError("libraryfolders".to_owned()));
            },
            Some(p) => p.1,
        };
        let path_key = "path".to_owned();
        match &root {
            Node::Str(_) => Err(SteamUtilError::MissingKeyError(path_key)),
            Node::Obj(entries) => {
                let ghost fpo = fpo_fn();
                let n = entries.len();
                let mut out: Vec<String> = Vec::new();
                assert(entries@.take(0) =~= Seq::<(String, Node)>::empty());
                let mut i: usize = 0;
                while i < n
                    invariant
                        n == entries@.len(),
                        path_key@ == "path"@,
                        fpo == fpo_fn(),
                        0 <= i <= n,
                        flat_map_all(entries@.take(i as int), fpo) == Some(out@),
                    decreases n - i,
                {
                    proof {
                        assert(entries@.take(i + 1).drop_last() =~= entries@.take(i as int));
                        assert(entries@.take(i + 1).last() == entries@[i as int]);
                    }
                    match entries[i].1.get(&path_key, false) {
                        Some(pn) => match pn.as_str_value() {
                            Some(p) => {
                                if !p.as_str().is_empty() {
                                    let ghost out0 = out@;
                                    out.push(p.clone());
                                    proof {
                                        assert(folder_paths_of(entries@[i as int]) == Some(
                                            seq![*p],
                                        ));
                                        assert(out@ =~= out0 + seq![*p]);
                                    }
                                } else {
                                    proof {
                                        assert(folder_paths_of(entries@[i as int]) == Some(
                                            Seq::<String>::empty(),
                                        ));
                                        assert(out@ + Seq::<String>::empty() =~= out@);
                                    }
                                }
                            },
                            None => {
                                proof {
                                    crate::lemma_flat_map_all_none(entries@, fpo, i as int);
                                }
                                return Err(SteamUtilError::MissingKeyError(path_key));
                            },
                        },
                        None => {
                            proof {
                                crate::lemma_flat_map_all_none(entries@, fpo, i as int);
                            }
                            return Err(SteamUtilError::MissingKeyError(path_key));
                        },
                    }
                    i = i + 1;
                }
                proof {
                    assert(entries@.take(n as int) =~= entries@);
                }
                Ok(out)
            },
        }
    }
}

/// Parses one application manifest text into its declared application.
fn parse_manifest(text: &String) -> (r: Result<SteamApp, SteamUtilError>)
    ensures
        match r {
            Ok(app) => manifest_app(*text) == Some(app),
            Err(e) => manifest_app(*text) is None && (e is VdfParsingError || e is MissingKeyError),
        },
{
    let root = match parse_vdf_text(text.as_str()) {
        None => {
            return Err(SteamUtilError::VdfParsingError("appmanifest".to_owned()));
        },
        Some(p) => p.1,
    };
    let id_str = match root.get(&"appid".to_owned(), false) {
        None => {
            return Err(SteamUtilError::MissingKeyError("appid".to_owned()));
        },
        Some(n) => match n.as_str_value() {
            None => {
                return Err(SteamUtilError::MissingKeyError("appid".to_owned()));
            },
            Some(s) => s,
        },
    };
    let app_id = match parse_u64(id_str) {
        None => {
            return Err(SteamUtilError::VdfParsingError(id_str.clone()));
        },
        Some(v) => v,
    };
    let name = match root.get(&"name".to_owned(), false) {
        None => {
            return Err(SteamUtilError::MissingKeyError("name".to_owned()));
        },
        Some(n) => match n.as_str_value() {
            None => {
                return Err(SteamUtilError::MissingKeyError("name".to_owned()));
            },
            Some(s) => s.clone(),
        },
    };
    Ok(SteamApp { shortcut: false, app_id, name })
}

impl SteamUtil {
    /// Parses every manifest text of one applications directory, in scan
    /// order; the first malformed manifest fails the call.
    #[verifier::loop_isolation(false)]
    pub fn find_installed_application(&self, manifest_texts: &Vec<String>) -> (r: Result<
        Vec<SteamApp>,
        SteamUtilError,
    >)
        ensures
            match r {
                Ok(apps) => manifest_apps_of(manifest_texts@) == Some(apps@),
                Err(e) => manifest_apps_of(manifest_texts@) is None && (e is VdfParsingError
                    || e is MissingKeyError),
            },
    {
        let n = manifest_texts.len();
        let mut out: Vec<SteamApp> = Vec::new();
        assert(manifest_texts@.take(0) =~= Seq::<String>::empty());
        let mut i: usize = 0;
        while i < n
            invariant
                0 <= i <= n,
                flat_map_all(manifest_texts@.take(i as int), mao_fn()) == Some(out@),
            decreases n - i,
        {
            proof {
                assert(manifest_texts@.take(i + 1).drop_last() =~= manifest_texts@.take(i as int));
                assert(manifest_texts@.take(i + 1).last() == manifest_texts@[i as int]);
            }
            match parse_manifest(&manifest_texts[i]) {
                Ok(app) => {
                    let ghost out0 = out@;
                    let ghost a = app;
                    out.push(app);
                    proof {
                        assert(mao_fn()(manifest_texts@[i as int]) == Some(seq![a]));
                        assert(out@ =~= out0 + seq![a]);
                    }
                },
                Err(e) => {
                    proof {
                        crate::lemma_flat_map_all_none(manifest_texts@, mao_fn(), i as int);
                    }
                    return Err(e);
                },
            }
            i = i + 1;
        }
        proof {
            assert(manifest_texts@.take(n as int) =~= manifest_texts@);
        }
        Ok(out)
    }

    /// Lists the installed applications across all library folders: every
    /// folder's manifests in scan order, each application identifier kept
    /// once, the first occurrence winning. A folder whose applications
    /// subdirectory is absent contributes nothing; a folder with a malformed
    /// manifest fails the whole call.
    #[verifier::loop_isolation(false)]
    pub fn list_installed_applications(&self, folders: &Vec<LibraryFolderScan>) -> (r: Result<
        Vec<SteamApp>,
        SteamUtilError,
    >)
        ensures
            match r {
                Ok(apps) => catalog_apps(folders@) matches Some(all) && apps@ == dedup_first(all),
                Err(e) => catalog_apps(folders@) is None && (e is VdfParsingError
                    || e is MissingKeyError),
            },
    {
        let n = folders.len();
        let mut all: Vec<SteamApp> = Vec::new();
        assert(folders@.take(0) =~= Seq::<LibraryFolderScan>::empty());
        let mut i: usize = 0;
        while i < n
            invariant
                0 <= i <= n,
                flat_map_all(folders@.take(i as int), fap_fn()) == Some(all@),
            decreases n - i,
        {
            proof {
                assert(folders@.take(i + 1).drop_last() =~= folders@.take(i as int));
                assert(folders@.take(i + 1).last() == folders@[i as int]);
            }
            if folders[i].steamapps_exists {
                match self.find_installed_application(&folders[i].manifest_texts) {
                    Ok(mut apps) => {
                        let ghost all0 = all@;
                        let ghost piece = apps@;
                        all.append(&mut apps);
                        proof {
                            assert(all@ == all0 + piece);
                        }
                    },
                    Err(e) => {
                        proof {
                            crate::lemma_flat_map_all_none(folders@, fap_fn(), i as int);
                        }
                        return Err(e);
                    },
                }
            } else {
                proof {
                    assert(fap_fn()(folders@[i as int]) == Some(Seq::<SteamApp>::empty()));
                    assert(all@ + Seq::<SteamApp>::empty() =~= all@);
                }
            }
            i = i + 1;
        }
        proof {
            assert(folders@.take(n as int) =~= folders@);
        }
        Ok(dedup_apps(all))
    }
}

/// No application identifier appears twice in a deduplicated catalog.
pub proof fn lemma_catalog_ids_unique(s: Seq<SteamApp>)
    ensures
        forall|j: int, k: int|
            0 <= j < k < dedup_first(s).len() ==> dedup_first(s)[j].app_id != dedup_first(
                s,
            )[k].app_id,
    decreases s.len(),
{
    if s.len() > 0 {
        lemma_catalog_ids_unique(s.drop_last());
        if !contains_id(s.drop_last(), s.last().app_id) {
            lemma_dedup_same_ids(s.drop_last(), s.last().app_id);
            assert(forall|j: int|
                0 <= j < dedup_first(s.drop_last()).len() ==> dedup_first(s.drop_last())[j].app_id
                    != s.last().app_id);
        }
    }
}

/// The deduplicated catalog carries an identifier exactly when some folder
/// declared it: the union of identifiers, each once.
pub proof fn lemma_catalog_union(s: Seq<SteamApp>, id: u64)
    ensures
        contains_id(dedup_first(s), id) == contains_id(s, id),
{
    lemma_dedup_same_ids(s, id);
}

/// Each catalog entry is the first declaration of its identifier: on a
/// duplicate identifier, the earlier declaration wins.
pub proof fn lemma_catalog_first_wins(s: Seq<SteamApp>, k: int)
    requires
        0 <= k < dedup_first(s).len(),
    ensures
        exists|j: int|
            0 <= j < s.len() && s[j] == dedup_first(s)[k] && (forall|l: int|
                0 <= l < j ==> s[l].app_id != s[j].app_id),
    decreases s.len(),
{
    if s.len() > 0 {
        if contains_id(s.drop_last(), s.last().app_id) {
            lemma_catalog_first_wins(s.drop_last(), k);
            let j = choose|j: int|
                0 <= j < s.drop_last().len() && s.drop_last()[j] == dedup_first(s.drop_last())[k]
                    && (forall|l: int| 0 <= l < j ==> s.drop_last()[l].app_id != s.drop_last()[j].app_id);
            assert(s[j] == dedup_first(s)[k]);
            assert(forall|l: int| 0 <= l < j ==> s[l].app_id != s[j].app_id) by {
                assert(forall|l: int| 0 <= l < j ==> s.drop_last()[l] == s[l]);
                assert(s.drop_last()[j] == s[j]);
            }
        } else {
            if k < dedup_first(s).len() - 1 {
                lemma_catalog_first_wins(s.drop_last(), k);
                let j = choose|j: int|
                    0 <= j < s.drop_last().len() && s.drop_last()[j] == dedup_first(
                        s.drop_last(),
                    )[k] && (forall|l: int|
                        0 <= l < j ==> s.drop_last()[l].app_id != s.drop_last()[j].app_id);
                assert(s[j] == dedup_first(s)[k]);
                assert(forall|l: int| 0 <= l < j ==> s[l].app_id != s[j].app_id) by {
                    assert(forall|l: int| 0 <= l < j ==> s.drop_last()[l] == s[l]);
                    assert(s.drop_last()[j] == s[j]);
                }
            } else {
                let j = s.len() - 1;
                assert(s[j] == dedup_first(s)[k]);
                assert(forall|l: int| 0 <= l < j ==> s[l].app_id != s[j].app_id) by {
                    assert(forall|l: int| 0 <= l < j ==> s.drop_last()[l] == s[l]);
                    assert(!contains_id(s.drop_last(), s.last().app_id));
                }
            }
        }
    }
}

/// The nested path leading to the application-to-tool assignment table in the
/// main configuration document.
pub open spec fn mappings_path() -> Seq<Seq<char>> {
    seq!["Software"@, "Valve"@, "Steam"@, "CompatToolMapping"@]
}

/// The assignment one mapping entry declares: its key must be a numeric
/// application identifier and its value an object whose `name` child is a
/// string. A blank name marks the entry as dropped.
pub open spec fn entry_mapping(e: (String, Node)) -> Option<Option<(u64, String)>> {
    match spec_parse_u64(e.0@) {
        None => None,
        Some(id) => match node_get(e.1, "name"@, false) {
            Some(n) => match n {
                Node::Str(nm) => Some(if nm@.len() == 0 { None } else { Some((id, nm)) }),
                Node::Obj(_) => None,
            },
            None => None,
        },
    }
}

/// The assignment table a mapping object declares, later entries overriding
/// earlier ones with the same identifier; nothing when any entry is
/// malformed.
pub open spec fn mappings_of(es: Seq<(String, Node)>) -> Option<Map<u64, String>>
    decreases es.len(),
{
    if es.len() == 0 {
        Some(Map::empty())
    } else {
        match (mappings_of(es.drop_last()), entry_mapping(es.last())) {
            (Some(m), Some(Some(p))) => Some(m.insert(p.0, p.1)),
            (Some(m), Some(None)) => Some(m),
            _ => None,
        }
    }
}

/// One malformed entry fails the whole table.
pub proof fn lemma_mappings_none(es: Seq<(String, Node)>, i: int)
    requires
        0 <= i < es.len(),
        entry_mapping(es[i]) is None,
    ensures
        mappings_of(es) is None,
    decreases es.len(),
{
    if i < es.len() - 1 {
        lemma_mappings_none(es.drop_last(), i);
    }
}

/// What the assignment table of a parsed main configuration document holds:
/// an absent nested path is an empty table, a present but malformed table is
/// nothing.
pub open spec fn spec_tool_mappings(root: Node) -> Option<Map<u64, String>> {
    match crate::kv::node_get_nested(root, mappings_path(), 0, true) {
        Ok(n) => match n {
            Node::Obj(es) => mappings_of(es@),
            Node::Str(_) => None,
        },
        Err(_) => Some(Map::empty()),
    }
}

impl SteamUtil {
    /// Reads the application-to-tool assignment table from the main
    /// configuration document. An absent document is an error; a document
    /// whose nested assignment path is absent is an empty table. Entries
    /// whose assigned tool name is blank are dropped.
    #[verifier::loop_isolation(false)]
    pub fn get_compatibility_tools_mappings(&self, steam_config_vdf: Option<&String>) -> (r:
        Result<std::collections::HashMap<u64, String>, SteamUtilError>)
        ensures
            match r {
                Ok(map) => steam_config_vdf matches Some(t) && (vdf_parse(t@) matches Some(pr)
                    && spec_tool_mappings(pr.1) == Some(map@)),
                Err(e) => match e {
                    SteamUtilError::SteamConfigVdfNotFound => steam_config_vdf is None,
                    SteamUtilError::VdfParsingError(_) => steam_config_vdf matches Some(t) && (
                    vdf_parse(t@) is None || (vdf_parse(t@) matches Some(pr) && spec_tool_mappings(
                        pr.1,
                    ) is None)),
                    SteamUtilError::MissingKeyError(s) => s@ == "name"@ && (steam_config_vdf
                        matches Some(t) && (vdf_parse(t@) matches Some(pr) && spec_tool_mappings(
                        pr.1,
                    ) is None)),
                    _ => false,
                },
            },
    {
        let text = match steam_config_vdf {
            None => {
                return Err(SteamUtilError::SteamConfigVdfNotFound);
            },
            Some(t) => t,
        };
        let root = match parse_vdf_text(text.as_str()) {
            None => {
                return Err(SteamUtilError::VdfParsingError("config".to_owned()));
            },
            Some(p) => p.1,
        };
        let mut path: Vec<String> = Vec::new();
        path.push("Software".to_owned());
        path.push("Valve".to_owned());
        path.push("Steam".to_owned());
        path.push("CompatToolMapping".to_owned());
        proof {
            assert(crate::kv::path_view(path@) =~= mappings_path());
        }
        let table = match root.get_nested(&path, true) {
            Err(_) => {
                return Ok(std::collections::HashMap::new());
            },
            Ok(n) => n,
        };
        let entries = match table.as_entries() {
            None => {
                return Err(SteamUtilError::MissingKeyError("name".to_owned()));
            },
            Some(es) => es,
        };
        let name_key = "name".to_owned();
        let n = entries.len();
        let mut out: std::collections::HashMap<u64, String> = std::collections::HashMap::new();
        assert(entries@.take(0) =~= Seq::<(String, Node)>::empty());
        let mut i: usize = 0;
        while i < n
            invariant
                0 <= i <= n,
                mappings_of(entries@.take(i as int)) == Some(out@),
            decreases n - i,
        {
            proof {
                assert(entries@.take(i + 1).drop_last() =~= entries@.take(i as int));
                assert(entries@.take(i + 1).last() == entries@[i as int]);
            }
            let id = match parse_u64(&entries[i].0) {
                None => {
                    proof {
                        lemma_mappings_none(entries@, i as int);
                    }
                    return Err(SteamUtilError::VdfParsingError(entries[i].0.clone()));
                },
                Some(v) => v,
            };
            let nm = match entries[i].1.get(&name_key, false) {
                None => {
                    proof {
                        lemma_mappings_none(entries@, i as int);
                    }
                    return Err(SteamUtilError::MissingKeyError("name".to_owned()));
                },
                Some(vn) => match vn.as_str_value() {
                    None => {
                        proof {
                            lemma_mappings_none(entries@, i as int);
                        }
                        return Err(SteamUtilError::MissingKeyError("name".to_owned()));
                    },
                    Some(s) => s,
                },
            };
            if !nm.as_str().is_empty() {
                out.insert(id, nm.clone());
            }
            i = i + 1;
        }
        proof {
            assert(entries@.take(n as int) =~= entries@);
        }
        Ok(out)
    }
}

/// One discovered tool directory: its path, its directory name, and the text
/// of its descriptor document.
#[derive(Debug, Clone, PartialEq)]
pub struct ToolDescriptor {
    pub path: String,
    pub directory_name: String,
    pub vdf_text: String,
}

/// The innermost object a tool descriptor document declares: the first child
/// of the root's first child names the tool; its value object carries the
/// tool's fields.
pub open spec fn compat_tool_fields(root: Node) -> Option<(String, Node)> {
    match root {
        Node::Str(_) => None,
        Node::Obj(es) => if es@.len() == 0 {
            None
        } else {
            match es@[0].1 {
                Node::Str(_) => None,
                Node::Obj(inner) => if inner@.len() == 0 {
                    None
                } else {
                    Some((inner@[0].0, inner@[0].1))
                },
            }
        },
    }
}

/// The string a field of the tool's value object holds.
pub open spec fn tool_field(valnode: Node, key: Seq<char>) -> Option<String> {
    match node_get(valnode, key, false) {
        Some(n) => match n {
            Node::Str(s) => Some(s),
            Node::Obj(_) => None,
        },
        None => None,
    }
}

/// The tool one descriptor text declares, placed at `path` under
/// `directory_name`.
pub open spec fn spec_compat_tool(text: String, path: String, directory_name: String) -> Option<
    CompatibilityTool,
> {
    match vdf_parse(text@) {
        None => None,
        Some(pr) => match compat_tool_fields(pr.1) {
            None => None,
            Some(f) => match (
                tool_field(f.1, "display_name"@),
                tool_field(f.1, "from_oslist"@),
                tool_field(f.1, "to_oslist"@),
            ) {
                (Some(d), Some(fr), Some(to)) => Some(
                    (CompatibilityTool {
                        path: path,
                        directory_name: directory_name,
                        internal_name: f.0,
                        display_name: d,
                        from_os_list: fr,
                        to_os_list: to,
                    }),
                ),
                _ => None,
            },
        },
    }
}

/// The tool one discovered descriptor declares.
pub open spec fn spec_tool_of(d: ToolDescriptor) -> Option<CompatibilityTool> {
    spec_compat_tool(d.vdf_text, d.path, d.directory_name)
}

impl SteamUtil {
    /// Reads one tool descriptor document into the tool it declares. The
    /// descriptor must carry the nested naming objects and the three string
    /// fields; each absent field is named in the error.
    pub fn read_compatibility_tool_from_vdf_path(
        &self,
        compat_tool_vdf: &String,
        tool_path: String,
        directory_name: String,
    ) -> (r: Result<CompatibilityTool, SteamUtilError>)
        ensures
            match r {
                Ok(t) => spec_compat_tool(*compat_tool_vdf, tool_path, directory_name) == Some(t),
                Err(e) => spec_compat_tool(*compat_tool_vdf, tool_path, directory_name) is None && (
                e is VdfParsingError || e is MissingKeyError),
            },
    {
        let root = match parse_vdf_text(compat_tool_vdf.as_str()) {
            None => {
                return Err(SteamUtilError::VdfParsingError("compatibilitytool".to_owned()));
            },
            Some(p) => p.1,
        };
        let entries = match root.as_entries() {
            None => {
                return Err(SteamUtilError::MissingKeyError("compat_tools".to_owned()));
            },
            Some(es) => es,
        };
        if entries.len() == 0 {
            return Err(SteamUtilError::MissingKeyError("compat_tools".to_owned()));
        }
        let inner = match entries[0].1.as_entries() {
            None => {
                return Err(SteamUtilError::MissingKeyError("compat_tools".to_owned()));
            },
            Some(es) => es,
        };
        if inner.len() == 0 {
            return Err(SteamUtilError::MissingKeyError("compat_tools".to_owned()));
        }
        let internal_name = inner[0].0.clone();
        let valnode = &inner[0].1;
        let display_name = match valnode.get(&"display_name".to_owned(), false) {
            Some(n) => match n.as_str_value() {
                Some(s) => s.clone(),
                None => {
                    return Err(SteamUtilError::MissingKeyError("display_name".to_owned()));
                },
            },
            None => {
                return Err(SteamUtilError::MissingKeyError("display_name".to_owned()));
            },
        };
        let from_os_list = match valnode.get(&"from_oslist".to_owned(), false) {
            Some(n) => match n.as_str_value() {
                Some(s) => s.clone(),
                None => {
                    return Err(SteamUtilError::MissingKeyError("from_oslist".to_owned()));
                },
            },
            None => {
                return Err(SteamUtilError::MissingKeyError("from_oslist".to_owned()));
            },
        };
        let to_os_list = match valnode.get(&"to_oslist".to_owned(), false) {
            Some(n) => match n.as_str_value() {
                Some(s) => s.clone(),
                None => {
                    return Err(SteamUtilError::MissingKeyError("to_oslist".to_owned()));
                },
            },
            None => {
                return Err(SteamUtilError::MissingKeyError("to_oslist".to_owned()));
            },
        };
        Ok(
            CompatibilityTool {
                path: tool_path,
                directory_name,
                internal_name,
                display_name,
                from_os_list,
                to_os_list,
            },
        )
    }

    /// Lists every installed compatibility tool from the discovered
    /// descriptors, in scan order. One malformed descriptor fails the whole
    /// listing; this strict policy matches the catalog's.
    #[verifier::loop_isolation(false)]
    pub fn list_compatibility_tools(&self, descriptors: &Vec<ToolDescriptor>) -> (r: Result<
        Vec<CompatibilityTool>,
        SteamUtilError,
    >)
        ensures
            match r {
                Ok(tools) => tools@.len() == descriptors@.len() && (forall|i: int|
                    0 <= i < descriptors@.len() ==> spec_tool_of(descriptors@[i]) == Some(
                        tools@[i],
                    )),
                Err(e) => (exists|i: int|
                    0 <= i < descriptors@.len() && spec_tool_of(descriptors@[i]) is None) && (
                e is VdfParsingError || e is MissingKeyError),
            },
    {
        let n = descriptors.len();
        let mut out: Vec<CompatibilityTool> = Vec::new();
        let mut i: usize = 0;
        while i < n
            invariant
                0 <= i <= n,
                out@.len() == i,
                forall|j: int| 0 <= j < i ==> spec_tool_of(descriptors@[j]) == Some(out@[j]),
            decreases n - i,
        {
            let d = &descriptors[i];
            match self.read_compatibility_tool_from_vdf_path(
                &d.vdf_text,
                d.path.clone(),
                d.directory_name.clone(),
            ) {
                Ok(t) => {
                    out.push(t);
                },
                Err(e) => {
                    return Err(e);
                },
            }
            i = i + 1;
        }
        Ok(out)
    }
}

/// The nested path leading to the per-user applications table in a local
/// configuration document.
pub open spec fn userdata_path() -> Seq<Seq<char>> {
    seq!["Software"@, "Valve"@, "Steam"@, "Apps"@]
}

/// The application identifiers one applications table declares: every key
/// must be numeric.
pub open spec fn ids_of_entries(es: Seq<(String, Node)>) -> Option<Seq<u64>>
    decreases es.len(),
{
    if es.len() == 0 {
        Some(Seq::empty())
    } else {
        match (ids_of_entries(es.drop_last()), spec_parse_u64(es.last().0@)) {
            (Some(rest), Some(id)) => Some(rest.push(id)),
            _ => None,
        }
    }
}

/// One non-numeric key fails the whole table.
pub proof fn lemma_ids_none(es: Seq<(String, Node)>, i: int)
    requires
        0 <= i < es.len(),
        spec_parse_u64(es[i].0@) is None,
    ensures
        ids_of_entries(es) is None,
    decreases es.len(),
{
    if i < es.len() - 1 {
        lemma_ids_none(es.drop_last(), i);
    }
}

/// The application identifiers one local configuration text declares. A text
/// that does not parse declares none; a parsed text whose applications table
/// is unreachable or malformed is an error.
pub open spec fn config_ids(text: String) -> Option<Seq<u64>> {
    match vdf_parse(text@) {
        None => Some(Seq::empty()),
        Some(pr) => match crate::kv::node_get_nested(pr.1, userdata_path(), 0, true) {
            Ok(n) => match n {
                Node::Obj(es) => ids_of_entries(es@),
                Node::Str(_) => None,
            },
            Err(_) => None,
        },
    }
}

/// The identifiers all local configuration texts declare, in order.
pub open spec fn all_config_ids(texts: Seq<String>) -> Option<Seq<u64>>
    decreases texts.len(),
{
    if texts.len() == 0 {
        Some(Seq::empty())
    } else {
        match (all_config_ids(texts.drop_last()), config_ids(texts.last())) {
            (Some(rest), Some(ids)) => Some(rest + ids),
            _ => None,
        }
    }
}

/// One erroneous configuration fails the whole collection.
pub proof fn lemma_all_config_ids_none(texts: Seq<String>, i: int)
    requires
        0 <= i < texts.len(),
        config_ids(texts[i]) is None,
    ensures
        all_config_ids(texts) is None,
    decreases texts.len(),
{
    if i < texts.len() - 1 {
        lemma_all_config_ids_none(texts.drop_last(), i);
    }
}

/// The first entry carrying this identifier.
pub open spec fn first_with_id(s: Seq<SteamApp>, id: u64) -> Option<SteamApp>
    decreases s.len(),
{
    if s.len() == 0 {
        None
    } else if s[0].app_id == id {
        Some(s[0])
    } else {
        first_with_id(s.drop_first(), id)
    }
}

/// The installed applications the identifiers refer to, in identifier order,
/// each application once; identifiers naming nothing installed contribute
/// nothing.
pub open spec fn select_apps(installed: Seq<SteamApp>, ids: Seq<u64>) -> Seq<SteamApp>
    decreases ids.len(),
{
    if ids.len() == 0 {
        Seq::empty()
    } else {
        let rest = select_apps(installed, ids.drop_last());
        match first_with_id(installed, ids.last()) {
            None => rest,
            Some(app) => if contains_id(rest, app.app_id) {
                rest
            } else {
                rest.push(app)
            },
        }
    }
}

proof fn lemma_first_with_id_skip_step(s: Seq<SteamApp>, id: u64, i: int)
    requires
        0 <= i < s.len(),
        s[i].app_id != id,
    ensures
        first_with_id(s.skip(i), id) == first_with_id(s.skip(i + 1), id),
{
    assert(s.skip(i).drop_first() =~= s.skip(i + 1));
}

fn first_app_with_id<'a>(v: &'a Vec<SteamApp>, id: u64) -> (r: Option<&'a SteamApp>)
    ensures
        match r {
            Some(app) => first_with_id(v@, id) == Some(*app),
            None => first_with_id(v@, id) is None,
        },
{
    let n = v.len();
    assert(v@.skip(0) =~= v@);
    let mut i: usize = 0;
    while i < n
        invariant
            n == v@.len(),
            0 <= i <= n,
            first_with_id(v@, id) == first_with_id(v@.skip(i as int), id),
        decreases n - i,
    {
        if v[i].app_id == id {
            assert(v@.skip(i as int)[0] == v@[i as int]);
            return Some(&v[i]);
        }
        proof {
            lemma_first_with_id_skip_step(v@, id, i as int);
        }
        i = i + 1;
    }
    assert(v@.skip(n as int) =~= Seq::<SteamApp>::empty());
    None
}

/// Reads the application identifiers one local configuration text declares.
#[verifier::loop_isolation(false)]
fn config_app_ids(text: &String) -> (r: Result<Vec<u64>, SteamUtilError>)
    ensures
        match r {
            Ok(v) => config_ids(*text) == Some(v@),
            Err(e) => config_ids(*text) is None && (e is VdfParsingError || e is MissingKeyError),
        },
{
    let root = match parse_vdf_text(text.as_str()) {
        None => {
            return Ok(Vec::new());
        },
        Some(p) => p.1,
    };
    let mut path: Vec<String> = Vec::new();
    path.push("Software".to_owned());
    path.push("Valve".to_owned());
    path.push("Steam".to_owned());
    path.push("Apps".to_owned());
    proof {
        assert(crate::kv::path_view(path@) =~= userdata_path());
    }
    let table = match root.get_nested(&path, true) {
        Err(i) => {
            return Err(SteamUtilError::MissingKeyError(path[i].clone()));
        },
        Ok(n) => n,
    };
    let entries = match table.as_entries() {
        None => {
            return Err(SteamUtilError::MissingKeyError("Apps".to_owned()));
        },
        Some(es) => es,
    };
    let n = entries.len();
    let mut out: Vec<u64> = Vec::new();
    assert(entries@.take(0) =~= Seq::<(String, Node)>::empty());
    let mut i: usize = 0;
    while i < n
        invariant
            0 <= i <= n,
            ids_of_entries(entries@.take(i as int)) == Some(out@),
        decreases n - i,
    {
        proof {
            assert(entries@.take(i + 1).drop_last() =~= entries@.take(i as int));
            assert(entries@.take(i + 1).last() == entries@[i as int]);
        }
        match parse_u64(&entries[i].0) {
            None => {
                proof {
                    lemma_ids_none(entries@, i as int);
                }
                return Err(SteamUtilError::VdfParsingError(entries[i].0.clone()));
            },
            Some(id) => {
                out.push(id);
            },
        }
        i = i + 1;
    }
    proof {
        assert(entries@.take(n as int) =~= entries@);
    }
    Ok(out)
}

impl SteamUtil {
    /// Lists the installed applications a user's local configurations refer
    /// to: the catalog restricted to the referenced identifiers, in reference
    /// order, each application once. A configuration that does not parse
    /// refers to nothing; one whose applications table is unreachable fails
    /// the call.
    #[verifier::loop_isolation(false)]
    pub fn list_installed_applications_by_userdata(
        &self,
        folders: &Vec<LibraryFolderScan>,
        local_config_texts: &Vec<String>,
    ) -> (r: Result<Vec<SteamApp>, SteamUtilError>)
        ensures
            match r {
                Ok(apps) => catalog_apps(folders@) matches Some(all) && (all_config_ids(
                    local_config_texts@,
                ) matches Some(ids) && apps@ == select_apps(dedup_first(all), ids)),
                Err(e) => (catalog_apps(folders@) is None || all_config_ids(local_config_texts@)
                    is None) && (e is VdfParsingError || e is MissingKeyError),
            },
    {
        let installed = match self.list_installed_applications(folders) {
            Ok(v) => v,
            Err(e) => {
                return Err(e);
            },
        };
        let n = local_config_texts.len();
        let mut ids: Vec<u64> = Vec::new();
        assert(local_config_texts@.take(0) =~= Seq::<String>::empty());
        let mut i: usize = 0;
        while i < n
            invariant
                0 <= i <= n,
                all_config_ids(local_config_texts@.take(i as int)) == Some(ids@),
            decreases n - i,
        {
            proof {
                assert(local_config_texts@.take(i + 1).drop_last() =~= local_config_texts@.take(
                    i as int,
                ));
                assert(local_config_texts@.take(i + 1).last() == local_config_texts@[i as int]);
            }
            match config_app_ids(&local_config_texts[i]) {
                Ok(mut v) => {
                    ids.append(&mut v);
                },
                Err(e) => {
                    proof {
                        lemma_all_config_ids_none(local_config_texts@, i as int);
                    }
                    return Err(e);
                },
            }
            i = i + 1;
        }
        proof {
            assert(local_config_texts@.take(n as int) =~= local_config_texts@);
        }
        let m = ids.len();
        let mut out: Vec<SteamApp> = Vec::new();
        assert(ids@.take(0) =~= Seq::<u64>::empty());
        let mut j: usize = 0;
        while j < m
            invariant
                0 <= j <= m,
                out@ == select_apps(installed@, ids@.take(j as int)),
            decreases m - j,
        {
            proof {
                assert(ids@.take(j + 1).drop_last() =~= ids@.take(j as int));
                assert(ids@.take(j + 1).last() == ids@[j as int]);
            }
            match first_app_with_id(&installed, ids[j]) {
                Some(app) => {
                    if !contains_app_id(&out, app.app_id) {
                        out.push(
                            SteamApp {
                                shortcut: app.shortcut,
                                app_id: app.app_id,
                                name: app.name.clone(),
                            },
                        );
                    }
                },
                None => {
                },
            }
            j = j + 1;
        }
        proof {
            assert(ids@.take(m as int) =~= ids@);
        }
        Ok(out)
    }
}

/// What decoding bytes as UTF-8 with replacement returns: a function of the
/// bytes alone.
pub uninterp spec fn utf8_lossy(bytes: Seq<u8>) -> Seq<char>;

/// Relies on String::from_utf8_lossy: the text depends on the bytes alone,
/// and ASCII bytes decode to their own characters, one each.
#[verifier::external_body]
fn bytes_to_string_lossy(bytes: &Vec<u8>) -> (r: String)
    ensures
        r@ == utf8_lossy(bytes@),
        (forall|i: int| 0 <= i < bytes@.len() ==> bytes@[i] < 128) ==> r@ == bytes@.map_values(
            |b: u8| b as char,
        ),
{
    String::from_utf8_lossy(bytes).into_owned()
}

/// The key of the root object holding the shortcut records.
pub open spec fn shortcuts_key() -> Seq<u8> {
    seq![115u8, 104u8, 111u8, 114u8, 116u8, 99u8, 117u8, 116u8, 115u8]
}

/// The key of a shortcut's application identifier.
pub open spec fn appid_key() -> Seq<u8> {
    seq![97u8, 112u8, 112u8, 105u8, 100u8]
}

/// The key of a shortcut's declared name.
pub open spec fn appname_key() -> Seq<u8> {
    seq![65u8, 112u8, 112u8, 78u8, 97u8, 109u8, 101u8]
}

fn shortcuts_key_vec() -> (r: Vec<u8>)
    ensures
        r@ == shortcuts_key(),
{
    let mut v: Vec<u8> = Vec::new();
    v.push(115);
    v.push(104);
    v.push(111);
    v.push(114);
    v.push(116);
    v.push(99);
    v.push(117);
    v.push(116);
    v.push(115);
    proof {
        assert(v@ =~= shortcuts_key());
    }
    v
}

fn appid_key_vec() -> (r: Vec<u8>)
    ensures
        r@ == appid_key(),
{
    let mut v: Vec<u8> = Vec::new();
    v.push(97);
    v.push(112);
    v.push(112);
    v.push(105);
    v.push(100);
    proof {
        assert(v@ =~= appid_key());
    }
    v
}

fn appname_key_vec() -> (r: Vec<u8>)
    ensures
        r@ == appname_key(),
{
    let mut v: Vec<u8> = Vec::new();
    v.push(65);
    v.push(112);
    v.push(112);
    v.push(78);
    v.push(97);
    v.push(109);
    v.push(101);
    proof {
        assert(v@ =~= appname_key());
    }
    v
}

/// The identifier and name bytes one shortcut record declares.
pub open spec fn shortcut_fields(v: crate::binary::BVal) -> Option<(u32, Seq<u8>)> {
    match v {
        crate::binary::BVal::Obj(ses) => match (
            crate::binary::vlookup(ses, appid_key()),
            crate::binary::vlookup(ses, appname_key()),
        ) {
            (
                Some(crate::binary::BVal::Int(x)),
                Some(crate::binary::BVal::Str(nm)),
            ) => Some((x, nm)),
            _ => None,
        },
        _ => None,
    }
}

/// Does `app` faithfully project one shortcut record?
pub open spec fn is_shortcut_app(v: crate::binary::BVal, app: SteamApp) -> bool {
    match shortcut_fields(v) {
        Some(f) => app.shortcut == true && app.app_id == f.0 as u64 && app.name@ == utf8_lossy(f.1),
        None => false,
    }
}

/// Do `apps` faithfully project one decoded shortcuts file: a decodable
/// document whose shortcut records, in order, each carry an identifier and a
/// name?
pub open spec fn file_shortcut_rel(bytes: Seq<u8>, apps: Seq<SteamApp>) -> bool {
    match crate::binary::sd_doc(bytes) {
        crate::binary::SpecParse::Parsed(es, _) => match crate::binary::vlookup(
            es,
            shortcuts_key(),
        ) {
            Some(crate::binary::BVal::Obj(ses)) => apps.len() == ses.len() && (forall|i: int|
                0 <= i < ses.len() ==> is_shortcut_app(ses[i].1, apps[i])),
            _ => false,
        },
        crate::binary::SpecParse::Fail(_) => false,
    }
}

/// Is one shortcuts file well-formed enough to project?
pub open spec fn file_shortcut_ok(bytes: Seq<u8>) -> bool {
    match crate::binary::sd_doc(bytes) {
        crate::binary::SpecParse::Parsed(es, _) => match crate::binary::vlookup(
            es,
            shortcuts_key(),
        ) {
            Some(crate::binary::BVal::Obj(ses)) => forall|i: int|
                0 <= i < ses.len() ==> shortcut_fields(ses[i].1) is Some,
            _ => false,
        },
        crate::binary::SpecParse::Fail(_) => false,
    }
}

/// Do `apps` project this list of shortcuts files, file by file, in order?
pub open spec fn files_shortcut_rel(files: Seq<Vec<u8>>, apps: Seq<SteamApp>) -> bool
    decreases files.len(),
{
    if files.len() == 0 {
        apps.len() == 0
    } else {
        exists|k: int|
            0 <= k <= apps.len() && files_shortcut_rel(files.drop_last(), apps.take(k))
                && file_shortcut_rel(files.last()@, apps.skip(k))
    }
}

/// Projects one decoded shortcuts file into its declared applications.
#[verifier::loop_isolation(false)]
fn file_shortcuts(bytes: &Vec<u8>) -> (r: Result<Vec<SteamApp>, SteamUtilError>)
    ensures
        match r {
            Ok(apps) => file_shortcut_rel(bytes@, apps@) && file_shortcut_ok(bytes@),
            Err(e) => !file_shortcut_ok(bytes@) && (e is VdfParsingError || e is MissingKeyError),
        },
{
    let root = match crate::binary::decode(bytes) {
        Ok(n) => n,
        Err(e) => {
            return Err(
                SteamUtilError::VdfParsingError(crate::kv::u64_to_decimal(e.offset as u64)),
            );
        },
    };
    let entries = match root.as_bentries() {
        Some(es) => es,
        None => {
            return Err(SteamUtilError::MissingKeyError("shortcuts".to_owned()));
        },
    };
    let skey = shortcuts_key_vec();
    let table = match crate::binary::bget(entries, &skey) {
        Some(n) => n,
        None => {
            return Err(SteamUtilError::MissingKeyError("shortcuts".to_owned()));
        },
    };
    let records = match table.as_bentries() {
        Some(es) => es,
        None => {
            return Err(SteamUtilError::MissingKeyError("shortcuts".to_owned()));
        },
    };
    let ghost ses = crate::binary::bvals_of(records@);
    proof {
        crate::binary::lemma_bvals_index(records@);
    }
    let idkey = appid_key_vec();
    let nmkey = appname_key_vec();
    let n = records.len();
    let mut out: Vec<SteamApp> = Vec::new();
    let mut i: usize = 0;
    while i < n
        invariant
            0 <= i <= n,
            out@.len() == i,
            forall|j: int| 0 <= j < i ==> is_shortcut_app(ses[j].1, out@[j]),
        decreases n - i,
    {
        let ghost sv = ses[i as int].1;
        proof {
            assert(sv == crate::binary::bval_of(records@[i as int].1));
        }
        let rec = match records[i].1.as_bentries() {
            Some(es) => es,
            None => {
                proof {
                    assert(shortcut_fields(sv) is None);
                }
                return Err(SteamUtilError::MissingKeyError("appid".to_owned()));
            },
        };
        proof {
            assert(sv == crate::binary::BVal::Obj(crate::binary::bvals_of(rec@)));
        }
        let app_id = match crate::binary::bget(rec, &idkey) {
            Some(vn) => match vn.as_bint() {
                Some(x) => x as u64,
                None => {
                    proof {
                        assert(!(crate::binary::bval_of(*vn) is Int));
                        assert(shortcut_fields(sv) is None);
                    }
                    return Err(SteamUtilError::MissingKeyError("appid".to_owned()));
                },
            },
            None => {
                proof {
                    assert(shortcut_fields(sv) is None);
                }
                return Err(SteamUtilError::MissingKeyError("appid".to_owned()));
            },
        };
        let name = match crate::binary::bget(rec, &nmkey) {
            Some(vn) => match vn.as_bstr() {
                Some(s) => bytes_to_string_lossy(s),
                None => {
                    proof {
                        assert(!(crate::binary::bval_of(*vn) is Str));
                        assert(shortcut_fields(sv) is None);
                    }
                    return Err(SteamUtilError::MissingKeyError("AppName".to_owned()));
                },
            },
            None => {
                proof {
                    assert(shortcut_fields(sv) is None);
                }
                return Err(SteamUtilError::MissingKeyError("AppName".to_owned()));
            },
        };
        let app = SteamApp { shortcut: true, app_id, name };
        proof {
            assert(is_shortcut_app(sv, app));
        }
        out.push(app);
        i = i + 1;
    }
    proof {
        assert(crate::binary::bval_of(*table) == crate::binary::BVal::Obj(ses));
        assert(file_shortcut_ok(bytes@)) by {
            assert(ses.len() == records@.len());
            assert forall|j: int| 0 <= j < ses.len() implies shortcut_fields(ses[j].1) is Some by {
                assert(is_shortcut_app(ses[j].1, out@[j]));
            }
        }
        assert(file_shortcut_rel(bytes@, out@));
    }
    Ok(out)
}

impl SteamUtil {
    /// Projects every user's binary shortcuts file into its declared
    /// applications, file by file in scan order. A file that does not decode,
    /// or whose records are malformed, fails the call; a decode failure names
    /// the byte offset.
    #[verifier::loop_isolation(false)]
    pub fn list_shortcuts(&self, shortcut_files: &Vec<Vec<u8>>) -> (r: Result<
        Vec<SteamApp>,
        SteamUtilError,
    >)
        ensures
            match r {
                Ok(apps) => files_shortcut_rel(shortcut_files@, apps@) && (forall|i: int|
                    0 <= i < shortcut_files@.len() ==> file_shortcut_ok(
                        #[trigger] shortcut_files@[i]@,
                    )),
                Err(e) => (exists|i: int|
                    0 <= i < shortcut_files@.len() && !file_shortcut_ok(
                        #[trigger] shortcut_files@[i]@,
                    )) && (e is VdfParsingError || e is MissingKeyError),
            },
    {
        let n = shortcut_files.len();
        let mut out: Vec<SteamApp> = Vec::new();
        assert(shortcut_files@.take(0) =~= Seq::<Vec<u8>>::empty());
        let mut i: usize = 0;
        while i < n
            invariant
                0 <= i <= n,
                files_shortcut_rel(shortcut_files@.take(i as int), out@),
                forall|j: int|
                    0 <= j < i ==> file_shortcut_ok(#[trigger] shortcut_files@[j]@),
            decreases n - i,
        {
            match file_shortcuts(&shortcut_files[i]) {
                Ok(mut apps) => {
                    let ghost out0 = out@;
                    let ghost piece = apps@;
                    out.append(&mut apps);
                    proof {
                        assert(shortcut_files@.take(i + 1).drop_last() =~= shortcut_files@.take(
                            i as int,
                        ));
                        assert(shortcut_files@.take(i + 1).last() == shortcut_files@[i as int]);
                        assert(out@.take(out0.len() as int) =~= out0);
                        assert(out@.skip(out0.len() as int) =~= piece);
                        assert(files_shortcut_rel(shortcut_files@.take(i + 1), out@)) by {
                            assert(0 <= out0.len() <= out@.len());
                        }
                    }
                },
                Err(e) => {
                    return Err(e);
                },
            }
            i = i + 1;
        }
        proof {
            assert(shortcut_files@.take(n as int) =~= shortcut_files@);
        }
        Ok(out)
    }
}

/// The fixed, ordered list of known installation layouts under a home
/// directory: native package path, two alternate native paths, a
/// distribution-specific path, and a sandboxed path.
pub fn steam_root_candidates(user_profile: &str) -> (r: Vec<String>)
    ensures
        r@.len() == 5,
        r@[0]@ == user_profile@ + "/"@ + ".local/share/Steam"@,
        r@[1]@ == user_profile@ + "/"@ + ".steam/root"@,
        r@[2]@ == user_profile@ + "/"@ + ".steam/steam"@,
        r@[3]@ == user_profile@ + "/"@ + ".steam/debian-installation"@,
        r@[4]@ == user_profile@ + "/"@ + ".var/app/com.valvesoftware.Steam/data/Steam"@,
{
    let mut v: Vec<String> = Vec::new();
    v.push(path_join(user_profile, ".local/share/Steam"));
    v.push(path_join(user_profile, ".steam/root"));
    v.push(path_join(user_profile, ".steam/steam"));
    v.push(path_join(user_profile, ".steam/debian-installation"));
    v.push(path_join(user_profile, ".var/app/com.valvesoftware.Steam/data/Steam"));
    v
}

} // verus!
