//! The release data that the download section is composed from.

use vstd::prelude::*;

verus! {

/// Whether an installer wants to be listed.
#[derive(Clone, Copy, Debug, PartialEq, Eq, Structural)]
pub enum DisplayPreference {
    /// List the installer.
    Shown,
    /// Keep the installer out of every listing.
    Hidden,
}

/// How an installer installs the release.
#[derive(Clone, Debug, PartialEq, Eq)]
pub enum InstallMethod {
    /// Fetch `file` and run it the way `run_hint` describes.
    Run { file: String, run_hint: String },
    /// Install through a package manager.
    PackageManager,
}

/// One way of installing a release.
#[derive(Clone, Debug, PartialEq, Eq)]
pub struct Installer {
    /// Name shown to the reader. Several installers may carry the same label.
    pub label: String,
    pub display: DisplayPreference,
    pub method: InstallMethod,
}

impl Installer {
    /// An installer is runnable when it is not hidden and installs by running a file.
    pub open spec fn runnable(&self) -> bool {
        self.display != DisplayPreference::Hidden && self.method is Run
    }

    /// Decides whether this installer may be shown as a runnable script.
    pub fn is_runnable(&self) -> (yes: bool)
        ensures
            yes == self.runnable(),
    {
        match self.display {
            DisplayPreference::Hidden => false,
            DisplayPreference::Shown => match &self.method {
                InstallMethod::Run { .. } => true,
                InstallMethod::PackageManager => false,
            },
        }
    }
}

/// A published version of a project. Its installers are identified by their
/// position in `installers`.
#[derive(Clone, Debug, PartialEq, Eq)]
pub struct Release {
    pub installers: Vec<Installer>,
}

/// The releases known for a project, newest first.
#[derive(Clone, Debug, PartialEq, Eq)]
pub struct Context {
    pub releases: Vec<Release>,
}

impl Context {
    /// The newest release, if there is any.
    pub open spec fn latest_release(&self) -> Option<Release> {
        if self.releases.len() > 0 {
            Some(self.releases[0])
        } else {
            None
        }
    }

    /// Looks up the newest release.
    pub fn latest(&self) -> (found: Option<&Release>)
        ensures
            found == match self.latest_release() {
                Some(release) => Some(&release),
                None => None,
            },
    {
        if self.releases.len() > 0 {
            Some(&self.releases[0])
        } else {
            None
        }
    }
}

/// The failure of a renderer. The composer never raises one itself; it hands
/// on the first one a renderer returns.
#[derive(Clone, Debug, PartialEq, Eq)]
pub struct RenderError {
    pub message: String,
}

} // verus!
