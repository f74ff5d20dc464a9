use vstd::prelude::*;
use vstd::string::*;
use crate::uid::{Uid, sorted_domains, sort_domains};

verus! {

/// The directory that the proxy watches for configuration fragments.
pub const CONFIG_DIR: &'static str = "/usr/local/etc/haproxy.inbox";

/// Where an artifact is in its life.
#[derive(PartialEq, Eq, Structural, Clone, Copy, Debug)]
pub enum ArtifactState {
    /// Rendered; not yet written to disk.
    Pending,
    /// Written to disk at its path.
    Installed,
    /// Released; its file has been handed back for removal. Terminal.
    Removed,
}

/// What an artifact is, mathematically.
pub struct ArtifactView {
    pub path: Seq<char>,
    pub content: Seq<char>,
    pub state: ArtifactState,
}

/// A configuration file owned by this process: where it goes, what it
/// holds, and whether it is on disk.
pub struct Artifact {
    path: String,
    content: String,
    state: ArtifactState,
}

impl View for Artifact {
    type V = ArtifactView;

    closed spec fn view(&self) -> ArtifactView {
        ArtifactView { path: self.path@, content: self.content@, state: self.state }
    }
}

/// The artifact once its file has been written.
pub open spec fn installed_view(a: ArtifactView) -> ArtifactView {
    if a.state == ArtifactState::Pending {
        ArtifactView { state: ArtifactState::Installed, ..a }
    } else {
        a
    }
}

/// The file that releasing the artifact removes: its path, if it is installed.
pub open spec fn release_result(a: ArtifactView) -> Option<Seq<char>> {
    if a.state == ArtifactState::Installed {
        Some(a.path)
    } else {
        None
    }
}

/// The artifact after release.
pub open spec fn released_view(a: ArtifactView) -> ArtifactView {
    ArtifactView { state: ArtifactState::Removed, ..a }
}

impl Artifact {
    fn pending(path: String, content: String) -> (r: Artifact)
        ensures
            r@ == (ArtifactView { path: path@, content: content@, state: ArtifactState::Pending }),
    {
        Artifact { path, content, state: ArtifactState::Pending }
    }

    /// The path of the file.
    pub fn path(&self) -> (r: &str)
        ensures
            r@ == self@.path,
    {
        self.path.as_str()
    }

    /// The text of the file.
    pub fn content(&self) -> (r: &str)
        ensures
            r@ == self@.content,
    {
        self.content.as_str()
    }

    /// Where the artifact is in its life.
    pub fn state(&self) -> (r: ArtifactState)
        ensures
            r == self@.state,
    {
        self.state
    }

    /// Records that the file has been written. Only a pending artifact
    /// becomes installed; a removed one stays removed.
    pub fn mark_installed(&mut self)
        ensures
            final(self)@ == installed_view(old(self)@),
    {
        if self.state == ArtifactState::Pending {
            self.state = ArtifactState::Installed;
        }
    }

    /// Releases the artifact: returns the path of the file to remove if it
    /// was installed, and leaves the artifact removed. A second release
    /// returns nothing.
    pub fn release(&mut self) -> (r: Option<String>)
        ensures
            r.deep_view() == release_result(old(self)@),
            final(self)@ == released_view(old(self)@),
    {
        let r = if self.state == ArtifactState::Installed {
            Some(self.path.clone())
        } else {
            None
        };
        self.state = ArtifactState::Removed;
        r
    }
}


/// The path of the frontend routing file for an identifier.
pub open spec fn frontend_path_of(uid: Seq<char>) -> Seq<char> {
    CONFIG_DIR@ + "/100-"@ + uid + ".cfg"@
}

/// The path of the backend descriptor for an identifier.
pub open spec fn backend_path_of(uid: Seq<char>) -> Seq<char> {
    CONFIG_DIR@ + "/200-"@ + uid + ".cfg"@
}

/// The routing rule that sends a domain to the backend named `uid`.
pub open spec fn frontend_rule(uid: Seq<char>, domain: Seq<char>) -> Seq<char> {
    "use_backend "@ + uid + " if { ssl_fc_sni_end -i "@ + domain + " }\n"@
}

/// One routing rule per domain, in the order given.
pub open spec fn frontend_rules(uid: Seq<char>, ds: Seq<Seq<char>>) -> Seq<char>
    decreases ds.len(),
{
    if ds.len() == 0 {
        Seq::empty()
    } else {
        frontend_rules(uid, ds.drop_last()) + frontend_rule(uid, ds.last())
    }
}

/// The frontend routing file: one rule per domain in ascending order, then a
/// blank line.
pub open spec fn frontend_config_of(uid: Seq<char>, ds: Seq<Seq<char>>) -> Seq<char> {
    frontend_rules(uid, sorted_domains(ds)) + "\n"@
}

/// The header directives that every backend carries.
pub const BACKEND_DIRECTIVES: &'static str = "http-request set-header X-Forwarded-Port %[dst_port]\nhttp-request add-header X-Forwarded-Proto https if { ssl_fc }\n\n";

/// The backend descriptor: a backend named `uid` with one server, which
/// forwards to `address`.
pub open spec fn backend_config_of(uid: Seq<char>, address: Seq<char>) -> Seq<char> {
    "backend "@ + uid + "\nmode http\nserver "@ + uid + " "@ + address + "\n"@
        + BACKEND_DIRECTIVES@
}

/// The frontend routing configuration of one process.
pub struct FrontendConfig {
    artifact: Artifact,
}

impl View for FrontendConfig {
    type V = ArtifactView;

    closed spec fn view(&self) -> ArtifactView {
        self.artifact@
    }
}

impl FrontendConfig {
    /// Renders the frontend routing file for the given domains, which are
    /// routed to the backend named `uid`. The file is pending until the
    /// caller has written it and marked it installed.
    pub fn new(domains: &Vec<String>, uid: &Uid) -> (r: FrontendConfig)
        ensures
            r@ == (ArtifactView {
                path: frontend_path_of(uid@),
                content: frontend_config_of(uid@, domains.deep_view()),
                state: ArtifactState::Pending,
            }),
    {
        let sorted = sort_domains(domains);
        let ghost ds = sorted.deep_view();
        let id = uid.as_str();
        let mut content = String::new();
        let mut i: usize = 0;
        assert(ds.take(0) =~= Seq::<Seq<char>>::empty());
        while i < sorted.len()
            invariant
                i <= sorted.len(),
                ds == sorted.deep_view(),
                id@ == uid@,
                content@ == frontend_rules(uid@, ds.take(i as int)),
            decreases sorted.len() - i,
        {
            let ghost before = content@;
            content.append("use_backend ");
            content.append(id);
            content.append(" if { ssl_fc_sni_end -i ");
            content.append(sorted[i].as_str());
            content.append(" }\n");
            assert(ds.take(i + 1).drop_last() =~= ds.take(i as int));
            assert(content@ =~= before + frontend_rule(uid@, ds[i as int]));
            i = i + 1;
        }
        assert(ds.take(i as int) =~= ds);
        content.append("\n");
        let mut path = String::from_str(CONFIG_DIR);
        path.append("/100-");
        path.append(id);
        path.append(".cfg");
        FrontendConfig { artifact: Artifact::pending(path, content) }
    }

    /// The routing file.
    pub fn artifact(&self) -> (r: &Artifact)
        ensures
            r@ == self@,
    {
        &self.artifact
    }

    /// Records that the routing file has been written.
    pub fn mark_installed(&mut self)
        ensures
            final(self)@ == installed_view(old(self)@),
    {
        self.artifact.mark_installed();
    }

    /// Releases the routing file: returns its path for removal if it was
    /// installed.
    pub fn release(&mut self) -> (r: Option<String>)
        ensures
            r.deep_view() == release_result(old(self)@),
            final(self)@ == released_view(old(self)@),
    {
        self.artifact.release()
    }
}

/// The backend descriptor of one process.
pub struct BackendConfig {
    artifact: Artifact,
}

impl View for BackendConfig {
    type V = ArtifactView;

    closed spec fn view(&self) -> ArtifactView {
        self.artifact@
    }
}

impl BackendConfig {
    /// Renders the descriptor of the backend named `uid`, which forwards to
    /// `backend`. The file is pending until the caller has written it and
    /// marked it installed.
    pub fn new(backend: &str, uid: &Uid) -> (r: BackendConfig)
        ensures
            r@ == (ArtifactView {
                path: backend_path_of(uid@),
                content: backend_config_of(uid@, backend@),
                state: ArtifactState::Pending,
            }),
    {
        let id = uid.as_str();
        let mut content = String::from_str("backend ");
        content.append(id);
        content.append("\nmode http\nserver ");
        content.append(id);
        content.append(" ");
        content.append(backend);
        content.append("\n");
        content.append(BACKEND_DIRECTIVES);
        let mut path = String::from_str(CONFIG_DIR);
        path.append("/200-");
        path.append(id);
        path.append(".cfg");
        BackendConfig { artifact: Artifact::pending(path, content) }
    }

    /// The descriptor file.
    pub fn artifact(&self) -> (r: &Artifact)
        ensures
            r@ == self@,
    {
        &self.artifact
    }

    /// Records that the descriptor has been written.
    pub fn mark_installed(&mut self)
        ensures
            final(self)@ == installed_view(old(self)@),
    {
        self.artifact.mark_installed();
    }

    /// Releases the descriptor: returns its path for removal if it was
    /// installed.
    pub fn release(&mut self) -> (r: Option<String>)
        ensures
            r.deep_view() == release_result(old(self)@),
            final(self)@ == released_view(old(self)@),
    {
        self.artifact.release()
    }
}

/// The configuration directory, as paths and their contents, once an
/// artifact's file has been written.
pub open spec fn dir_after_install(dir: Map<Seq<char>, Seq<char>>, a: ArtifactView) -> Map<
    Seq<char>,
    Seq<char>,
> {
    dir.insert(a.path, a.content)
}

/// The configuration directory once the file that a release hands back (if
/// any) has been removed.
pub open spec fn dir_after_release(
    dir: Map<Seq<char>, Seq<char>>,
    removed: Option<Seq<char>>,
) -> Map<Seq<char>, Seq<char>> {
    match removed {
        Some(p) => dir.remove(p),
        None => dir,
    }
}

/// Installing a freshly rendered artifact and then releasing it leaves the
/// configuration directory as it was, provided its path was free before.
pub proof fn lemma_lifecycle_round_trip(dir: Map<Seq<char>, Seq<char>>, a: ArtifactView)
    requires
        a.state == ArtifactState::Pending,
        !dir.contains_key(a.path),
    ensures
        dir_after_release(
            dir_after_install(dir, a),
            release_result(installed_view(a)),
        ) == dir,
        released_view(installed_view(a)).state == ArtifactState::Removed,
        release_result(released_view(installed_view(a))) is None,
{
    assert(dir.insert(a.path, a.content).remove(a.path) =~= dir);
}

} // verus!
