//! Data model for the Flatpak state FlatBak reads and writes.

use vstd::prelude::*;
use crate::text::{cat2, cat3, lemma_trim_idempotent, same_text, trim, trimmed_text};

verus! {

/// Which Flatpak installation an application lives in.
///
/// Flatpak supports the two well known installations plus arbitrary named ones
/// configured in `/etc/flatpak/installations.d`. FlatBak keeps whatever it
/// found so that a restore can put the application back where it was.
#[derive(Debug, PartialEq, Eq, Hash)]
pub enum Installation {
    User,
    System,
    Named(String),
}

pub enum InstallationView {
    User,
    System,
    Named(Seq<char>),
}

impl View for Installation {
    type V = InstallationView;

    open spec fn view(&self) -> InstallationView {
        match self {
            Installation::User => InstallationView::User,
            Installation::System => InstallationView::System,
            Installation::Named(name) => InstallationView::Named(name@),
        }
    }
}

/// The installation that `text` names.
pub open spec fn installation_of(text: Seq<char>) -> InstallationView {
    let name = trim(text);
    if name == "user"@ {
        InstallationView::User
    } else if name == "system"@ || name == ""@ {
        InstallationView::System
    } else {
        InstallationView::Named(name)
    }
}

/// How an installation is named.
pub open spec fn installation_name(installation: InstallationView) -> Seq<char> {
    match installation {
        InstallationView::User => "user"@,
        InstallationView::System => "system"@,
        InstallationView::Named(name) => name,
    }
}

impl Installation {
    pub fn parse(text: &str) -> (out: Self)
        ensures
            out@ == installation_of(text@),
    {
        let name = trimmed_text(text);
        if same_text(&name, "user") {
            Installation::User
        } else if same_text(&name, "system") || same_text(&name, "") {
            Installation::System
        } else {
            Installation::Named(name)
        }
    }

    /// The value stored in the manifest and shown in the UI.
    pub fn as_str(&self) -> (out: &str)
        ensures
            out@ == installation_name(self@),
    {
        match self {
            Installation::User => "user",
            Installation::System => "system",
            Installation::Named(name) => name.as_str(),
        }
    }

    /// A short human readable label.
    pub fn label(&self) -> (out: String)
        ensures
            out@ == match self@ {
                InstallationView::User => "User"@,
                InstallationView::System => "System"@,
                InstallationView::Named(name) => name,
            },
    {
        match self {
            Installation::User => "User".to_owned(),
            Installation::System => "System".to_owned(),
            Installation::Named(name) => name.clone(),
        }
    }

    /// The arguments that target this installation on the `flatpak` command line.
    pub fn cli_args(&self) -> (out: Vec<String>)
        ensures
            out@.len() == 1,
            out@[0]@ == scope_flag(self@),
    {
        let mut out: Vec<String> = Vec::new();
        match self {
            Installation::User => {
                out.push("--user".to_owned());
            },
            Installation::System => {
                out.push("--system".to_owned());
            },
            Installation::Named(name) => {
                out.push(cat2("--installation=", name));
            },
        }
        out
    }

    /// True when installing here needs administrator authorisation.
    pub fn needs_authorisation(&self) -> (yes: bool)
        ensures
            yes <==> self@ !is User,
    {
        match self {
            Installation::User => false,
            _ => true,
        }
    }

    /// True if both are the same installation.
    pub fn same_as(&self, other: &Installation) -> (same: bool)
        ensures
            same == (self@ == other@),
    {
        match (self, other) {
            (Installation::User, Installation::User) => true,
            (Installation::System, Installation::System) => true,
            (Installation::Named(a), Installation::Named(b)) => same_text(a, b),
            _ => false,
        }
    }
}

/// The argument that targets an installation on the `flatpak` command line.
pub open spec fn scope_flag(installation: InstallationView) -> Seq<char> {
    match installation {
        InstallationView::User => "--user"@,
        InstallationView::System => "--system"@,
        InstallationView::Named(name) => "--installation="@ + name,
    }
}

impl Clone for Installation {
    fn clone(&self) -> (out: Self)
        ensures
            out@ == self@,
    {
        match self {
            Installation::User => Installation::User,
            Installation::System => Installation::System,
            Installation::Named(name) => Installation::Named(name.clone()),
        }
    }
}

impl From<String> for Installation {
    fn from(value: String) -> (out: Self)
        ensures
            out@ == installation_of(value@),
    {
        Installation::parse(&value)
    }
}

/// Only what the result stands for is fixed, by the clause on `from`.
impl vstd::std_specs::convert::FromSpecImpl<String> for Installation {
    open spec fn obeys_from_spec() -> bool {
        false
    }

    open spec fn from_spec(value: String) -> Self {
        vstd::pervasive::arbitrary()
    }
}

impl From<Installation> for String {
    fn from(value: Installation) -> (out: Self)
        ensures
            out@ == installation_name(value@),
    {
        value.as_str().to_owned()
    }
}

/// Only what the result stands for is fixed, by the clause on `from`.
impl vstd::std_specs::convert::FromSpecImpl<Installation> for String {
    open spec fn obeys_from_spec() -> bool {
        false
    }

    open spec fn from_spec(value: Installation) -> Self {
        vstd::pervasive::arbitrary()
    }
}

/// An installation that was read from its name is read back from it.
pub proof fn lemma_installation_name_round_trips(text: Seq<char>)
    ensures
        installation_of(installation_name(installation_of(text))) == installation_of(text),
{
    lemma_trim_idempotent(text);
    reveal_strlit("user");
    reveal_strlit("system");
    reveal_strlit("");
    assert(trim("user"@) =~= "user"@) by {
        crate::text::lemma_trim_plain("user"@);
    }
    assert(trim("system"@) =~= "system"@) by {
        crate::text::lemma_trim_plain("system"@);
    }
    assert("user"@.len() == 4 && "system"@.len() == 6);
}

/// An application currently installed on this system.
#[derive(Debug, PartialEq, Eq)]
pub struct InstalledApp {
    pub id: String,
    /// Display name from the app's appdata, falling back to the ID.
    pub name: String,
    pub version: String,
    pub branch: String,
    pub arch: String,
    /// Remote the app was installed from. Empty for sideloaded apps.
    pub origin: String,
    pub installation: Installation,
    /// Full ref, e.g. `app/org.videolan.VLC/x86_64/stable`.
    pub reference: String,
    pub commit: String,
    /// Installed size in bytes, when flatpak reported one.
    pub installed_size: Option<u64>,
}

pub struct InstalledAppView {
    pub id: Seq<char>,
    pub name: Seq<char>,
    pub version: Seq<char>,
    pub branch: Seq<char>,
    pub arch: Seq<char>,
    pub origin: Seq<char>,
    pub installation: InstallationView,
    pub reference: Seq<char>,
    pub commit: Seq<char>,
    pub installed_size: Option<u64>,
}

impl View for InstalledApp {
    type V = InstalledAppView;

    open spec fn view(&self) -> InstalledAppView {
        InstalledAppView {
            id: self.id@,
            name: self.name@,
            version: self.version@,
            branch: self.branch@,
            arch: self.arch@,
            origin: self.origin@,
            installation: self.installation@,
            reference: self.reference@,
            commit: self.commit@,
            installed_size: self.installed_size,
        }
    }
}

impl InstalledAppView {
    /// The name, or the ID where there is none.
    pub open spec fn shown_name(self) -> Seq<char> {
        if self.name.len() == 0 {
            self.id
        } else {
            self.name
        }
    }

    pub open spec fn sideloaded(self) -> bool {
        self.origin.len() == 0 || self.origin == "-"@
    }

    pub open spec fn key_text(self) -> Seq<char> {
        self.reference + "@"@ + installation_name(self.installation)
    }
}

impl InstalledApp {
    /// A key that is unique even when the same app is installed both per-user
    /// and system-wide.
    pub fn key(&self) -> (out: String)
        ensures
            out@ == self@.key_text(),
    {
        cat3(&self.reference, "@", self.installation.as_str())
    }

    /// Best display name, never empty.
    pub fn display_name(&self) -> (out: &str)
        ensures
            out@ == self@.shown_name(),
    {
        if self.name.as_str().is_empty() {
            self.id.as_str()
        } else {
            self.name.as_str()
        }
    }

    /// True for apps with no remote, which therefore cannot be reinstalled.
    pub fn is_sideloaded(&self) -> (yes: bool)
        ensures
            yes == self@.sideloaded(),
    {
        self.origin.as_str().is_empty() || same_text(&self.origin, "-")
    }
}

/// Two refs, or one ref in two installations, have two keys, and one ref in one
/// installation has one. A ref holds no `@`; where it did, one ref would still
/// have two keys in two installations.
pub proof fn lemma_key_tells_installations_apart(a: InstalledAppView, b: InstalledAppView)
    requires
        a.reference == b.reference || (!a.reference.contains('@') && !b.reference.contains('@')),
    ensures
        a.key_text() == b.key_text() <==> a.reference == b.reference && installation_name(
            a.installation,
        ) == installation_name(b.installation),
{
    reveal_strlit("@");
    let (m, n) = (a.reference.len() as int, b.reference.len() as int);
    assert(a.key_text().skip(m + 1) =~= installation_name(a.installation));
    assert(b.key_text().skip(n + 1) =~= installation_name(b.installation));
    assert(a.key_text().take(m) =~= a.reference);
    assert(b.key_text().take(n) =~= b.reference);
    assert(a.key_text()[m] == '@' && b.key_text()[n] == '@');
    if a.key_text() == b.key_text() && a.reference != b.reference {
        if m < n {
            assert(b.reference[m] == '@');
        } else if n < m {
            assert(a.reference[n] == '@');
        }
    }
}

impl Clone for InstalledApp {
    fn clone(&self) -> (out: Self)
        ensures
            out@ == self@,
    {
        InstalledApp {
            id: self.id.clone(),
            name: self.name.clone(),
            version: self.version.clone(),
            branch: self.branch.clone(),
            arch: self.arch.clone(),
            origin: self.origin.clone(),
            installation: self.installation.clone(),
            reference: self.reference.clone(),
            commit: self.commit.clone(),
            installed_size: self.installed_size,
        }
    }
}

/// A configured Flatpak remote.
#[derive(Debug, PartialEq, Eq)]
pub struct Remote {
    pub name: String,
    pub title: String,
    pub url: String,
    pub installation: Installation,
    pub disabled: bool,
}

pub struct RemoteView {
    pub name: Seq<char>,
    pub title: Seq<char>,
    pub url: Seq<char>,
    pub installation: InstallationView,
    pub disabled: bool,
}

impl View for Remote {
    type V = RemoteView;

    open spec fn view(&self) -> RemoteView {
        RemoteView {
            name: self.name@,
            title: self.title@,
            url: self.url@,
            installation: self.installation@,
            disabled: self.disabled,
        }
    }
}

impl Remote {
    pub fn display_title(&self) -> (out: &str)
        ensures
            out@ == if self@.title.len() == 0 || self@.title == "-"@ {
                self@.name
            } else {
                self@.title
            },
    {
        if self.title.as_str().is_empty() || same_text(&self.title, "-") {
            self.name.as_str()
        } else {
            self.title.as_str()
        }
    }
}

impl Clone for Remote {
    fn clone(&self) -> (out: Self)
        ensures
            out@ == self@,
    {
        Remote {
            name: self.name.clone(),
            title: self.title.clone(),
            url: self.url.clone(),
            installation: self.installation.clone(),
            disabled: self.disabled,
        }
    }
}

/// The flag for an installation names that installation and no other.
pub proof fn lemma_scope_flags(a: InstallationView, b: InstallationView)
    ensures
        a is User ==> scope_flag(a) == "--user"@,
        a is System ==> scope_flag(a) == "--system"@,
        a matches InstallationView::Named(name) ==> scope_flag(a) == "--installation="@ + name,
        scope_flag(a) == scope_flag(b) ==> a == b,
{
    reveal_strlit("--user");
    reveal_strlit("--system");
    reveal_strlit("--installation=");
    let x = scope_flag(a);
    let y = scope_flag(b);
    assert(x[2] == if a is User {
        'u'
    } else if a is System {
        's'
    } else {
        'i'
    });
    assert(y[2] == if b is User {
        'u'
    } else if b is System {
        's'
    } else {
        'i'
    });
    if let (InstallationView::Named(p), InstallationView::Named(q)) = (a, b) {
        let start = "--installation="@;
        if x == y {
            assert((start + p).skip(start.len() as int) =~= p);
            assert((start + q).skip(start.len() as int) =~= q);
        }
    }
}

/// An application is shown by its name, or by its ID if it has none, and it came from
/// no remote if none is named.
pub proof fn lemma_how_applications_are_shown(app: InstalledAppView)
    ensures
        app.name.len() > 0 ==> app.shown_name() == app.name,
        app.name.len() == 0 ==> app.shown_name() == app.id,
        app.sideloaded() <==> app.origin.len() == 0 || app.origin == "-"@,
{
}

/// An installation is the user's or the system's if it is named so, the system's if it
/// is not named at all, and any other by its name.
pub proof fn lemma_installations_are_named(text: Seq<char>)
    ensures
        trim(text) == "user"@ <==> installation_of(text) is User,
        trim(text) == "system"@ || trim(text).len() == 0 <==> installation_of(text) is System,
        installation_of(text) matches InstallationView::Named(name) ==> name == trim(text),
{
    reveal_strlit("");
    reveal_strlit("user");
    reveal_strlit("system");
    assert("user"@.len() == 4 && "system"@.len() == 6 && ""@.len() == 0);
    if trim(text).len() == 0 {
        assert(trim(text) =~= ""@);
    }
}

} // verus!
