//! The versioned manifest stored inside every `.flatbak` archive.
//!
//! # Compatibility contract
//!
//! * `flatbak.format_version` is the only field a reader may assume exists. It
//!   is checked before anything else is interpreted.
//! * Readers ignore unknown keys, so a later version can add fields without
//!   breaking this one.
//! * A later version that needs to *change* the meaning of an existing field
//!   bumps `format_version`; this reader refuses versions it does not know
//!   rather than guessing.

use vstd::prelude::*;
use crate::config;
use crate::error::{ArchiveError, ArchiveErrorView};
use crate::flatpak::model::{
    installation_name, InstalledApp, InstalledAppView, Installation, InstallationView, Remote,
    RemoteView,
};
use crate::text::{cat2, cat3, same_text, sorted_names, strictly_sorted, views};
use crate::util::{is_valid_app_id, valid_app_id};

verus! {

/// Root of the manifest document.
#[derive(Debug, Clone)]
pub struct Manifest {
    pub flatbak: Meta,
    pub apps: Vec<AppEntry>,
    /// Remotes the backed-up applications came from, so a restore can offer to
    /// recreate one that is missing without asking the user for a URL.
    pub remotes: Vec<RemoteEntry>,
}

pub struct ManifestView {
    pub flatbak: MetaView,
    pub apps: Seq<AppEntryView>,
    pub remotes: Seq<RemoteEntryView>,
}

impl View for Manifest {
    type V = ManifestView;

    open spec fn view(&self) -> ManifestView {
        ManifestView {
            flatbak: self.flatbak@,
            apps: views(self.apps@),
            remotes: views(self.remotes@),
        }
    }
}

/// Archive-wide metadata.
#[derive(Debug, Clone)]
pub struct Meta {
    pub format_version: u32,
    /// RFC 3339 timestamp, stored as a string so an unparseable value from a
    /// future version cannot make the whole manifest unreadable.
    pub created_at: String,
    /// e.g. `FlatBak 0.1.0`.
    pub created_by: String,
    /// Architecture of the machine that made the backup, e.g. `x86_64`.
    pub host_arch: String,
    pub flatpak_version: String,
    /// True when `cache` subdirectories were left out of application data.
    pub excluded_caches: bool,
    /// Number of application entries, for a cheap sanity check.
    pub app_count: u32,
    /// Uncompressed size of all included application data.
    pub data_bytes: u64,
}

pub struct MetaView {
    pub format_version: u32,
    pub created_at: Seq<char>,
    pub created_by: Seq<char>,
    pub host_arch: Seq<char>,
    pub flatpak_version: Seq<char>,
    pub excluded_caches: bool,
    pub app_count: u32,
    pub data_bytes: u64,
}

impl View for Meta {
    type V = MetaView;

    open spec fn view(&self) -> MetaView {
        MetaView {
            format_version: self.format_version,
            created_at: self.created_at@,
            created_by: self.created_by@,
            host_arch: self.host_arch@,
            flatpak_version: self.flatpak_version@,
            excluded_caches: self.excluded_caches,
            app_count: self.app_count,
            data_bytes: self.data_bytes,
        }
    }
}

/// One backed-up application.
#[derive(Debug)]
pub struct AppEntry {
    pub id: String,
    pub name: String,
    pub version: String,
    pub branch: String,
    pub arch: String,
    /// Remote the application was installed from.
    pub origin: String,
    pub installation: Installation,
    pub reference: String,
    pub commit: String,
    pub installed_size: u64,
    /// Whether this archive carries the application's data.
    pub data_included: bool,
    pub data_bytes: u64,
    pub data_files: u64,
    /// Prefix of this application's entries in the payload, `data/<id>`.
    pub data_path: String,
}

pub struct AppEntryView {
    pub id: Seq<char>,
    pub name: Seq<char>,
    pub version: Seq<char>,
    pub branch: Seq<char>,
    pub arch: Seq<char>,
    pub origin: Seq<char>,
    pub installation: InstallationView,
    pub reference: Seq<char>,
    pub commit: Seq<char>,
    pub installed_size: u64,
    pub data_included: bool,
    pub data_bytes: u64,
    pub data_files: u64,
    pub data_path: Seq<char>,
}

impl View for AppEntry {
    type V = AppEntryView;

    open spec fn view(&self) -> AppEntryView {
        AppEntryView {
            id: self.id@,
            name: self.name@,
            version: self.version@,
            branch: self.branch@,
            arch: self.arch@,
            origin: self.origin@,
            installation: self.installation@,
            reference: self.reference@,
            commit: self.commit@,
            installed_size: self.installed_size,
            data_included: self.data_included,
            data_bytes: self.data_bytes,
            data_files: self.data_files,
            data_path: self.data_path@,
        }
    }
}

/// The prefix that the payload entries of the application `id` start with.
pub open spec fn payload_prefix_of(id: Seq<char>) -> Seq<char> {
    crate::backup::PAYLOAD_DATA_DIR@ + "/"@ + id
}

/// The entry for an application whose data is not included.
pub open spec fn entry_of(app: InstalledAppView) -> AppEntryView {
    AppEntryView {
        id: app.id,
        name: app.shown_name(),
        version: app.version,
        branch: app.branch,
        arch: app.arch,
        origin: app.origin,
        installation: app.installation,
        reference: app.reference,
        commit: app.commit,
        installed_size: match app.installed_size {
            Some(size) => size,
            None => 0,
        },
        data_included: false,
        data_bytes: 0,
        data_files: 0,
        data_path: Seq::empty(),
    }
}

impl AppEntryView {
    /// The name, or the ID where there is none.
    pub open spec fn shown_name(self) -> Seq<char> {
        if self.name.len() == 0 {
            self.id
        } else {
            self.name
        }
    }

    pub open spec fn sideloaded(self) -> bool {
        self.origin.len() == 0
    }
}

impl AppEntry {
    pub fn display_name(&self) -> (out: &str)
        ensures
            out@ == self@.shown_name(),
    {
        if self.name.as_str().is_empty() {
            self.id.as_str()
        } else {
            self.name.as_str()
        }
    }

    /// The prefix this app's payload entries must start with.
    pub fn payload_prefix(&self) -> (out: String)
        ensures
            out@ == payload_prefix_of(self@.id),
    {
        cat3(crate::backup::PAYLOAD_DATA_DIR, "/", &self.id)
    }

    /// True when the application has no remote and so cannot be reinstalled.
    pub fn is_sideloaded(&self) -> (yes: bool)
        ensures
            yes == self@.sideloaded(),
    {
        self.origin.as_str().is_empty()
    }

    pub fn from_installed(app: &InstalledApp) -> (out: Self)
        ensures
            out@ == entry_of(app@),
    {
        let data_path = String::new();
        assert(data_path@ =~= Seq::<char>::empty());
        AppEntry {
            id: app.id.clone(),
            name: app.display_name().to_owned(),
            version: app.version.clone(),
            branch: app.branch.clone(),
            arch: app.arch.clone(),
            origin: app.origin.clone(),
            installation: app.installation.clone(),
            reference: app.reference.clone(),
            commit: app.commit.clone(),
            installed_size: match app.installed_size {
                Some(size) => size,
                None => 0,
            },
            data_included: false,
            data_bytes: 0,
            data_files: 0,
            data_path,
        }
    }
}

impl Clone for AppEntry {
    fn clone(&self) -> (out: Self)
        ensures
            out@ == self@,
    {
        AppEntry {
            id: self.id.clone(),
            name: self.name.clone(),
            version: self.version.clone(),
            branch: self.branch.clone(),
            arch: self.arch.clone(),
            origin: self.origin.clone(),
            installation: self.installation.clone(),
            reference: self.reference.clone(),
            commit: self.commit.clone(),
            installed_size: self.installed_size,
            data_included: self.data_included,
            data_bytes: self.data_bytes,
            data_files: self.data_files,
            data_path: self.data_path.clone(),
        }
    }
}

/// A remote referenced by at least one backed-up application.
#[derive(Debug, Clone)]
pub struct RemoteEntry {
    pub name: String,
    pub title: String,
    pub url: String,
    pub installation: Installation,
}

pub struct RemoteEntryView {
    pub name: Seq<char>,
    pub title: Seq<char>,
    pub url: Seq<char>,
    pub installation: InstallationView,
}

impl View for RemoteEntry {
    type V = RemoteEntryView;

    open spec fn view(&self) -> RemoteEntryView {
        RemoteEntryView {
            name: self.name@,
            title: self.title@,
            url: self.url@,
            installation: self.installation@,
        }
    }
}

impl RemoteEntryView {
    /// The title, or the name where there is none.
    pub open spec fn shown_title(self) -> Seq<char> {
        if self.title.len() == 0 {
            self.name
        } else {
            self.title
        }
    }
}

pub open spec fn remote_entry_of(remote: RemoteView) -> RemoteEntryView {
    RemoteEntryView {
        name: remote.name,
        title: remote.title,
        url: remote.url,
        installation: remote.installation,
    }
}

impl RemoteEntry {
    pub fn from_remote(remote: &Remote) -> (out: Self)
        ensures
            out@ == remote_entry_of(remote@),
    {
        RemoteEntry {
            name: remote.name.clone(),
            title: remote.title.clone(),
            url: remote.url.clone(),
            installation: remote.installation.clone(),
        }
    }

    pub fn display_title(&self) -> (out: &str)
        ensures
            out@ == self@.shown_title(),
    {
        if self.title.as_str().is_empty() {
            self.name.as_str()
        } else {
            self.title.as_str()
        }
    }
}

// --------------------------------------------------------------- validation

/// Two entries for the same ref in the same installation.
pub open spec fn same_place(a: AppEntryView, b: AppEntryView) -> bool {
    a.reference == b.reference && installation_name(a.installation) == installation_name(
        b.installation,
    )
}

/// What is wrong with `app`, which comes after `earlier`.
pub open spec fn app_fault(earlier: Seq<AppEntryView>, app: AppEntryView) -> Option<Seq<char>> {
    if !valid_app_id(app.id) {
        Some("\u{201c}"@ + app.id + "\u{201d} is not a valid application ID"@)
    } else if app.branch.len() == 0 || app.arch.len() == 0 {
        Some(app.id + " is missing its branch or architecture"@)
    } else if exists|i: int| 0 <= i < earlier.len() && same_place(#[trigger] earlier[i], app) {
        Some(app.id + " appears twice for the same installation"@)
    } else if app.data_included && app.data_path != payload_prefix_of(app.id) {
        Some(
            app.id + " declares an unexpected data path \u{201c}"@ + app.data_path + "\u{201d}"@,
        )
    } else {
        None
    }
}

/// What is wrong with the first one of `apps` with which anything is.
pub open spec fn first_app_fault(apps: Seq<AppEntryView>) -> Option<Seq<char>>
    decreases apps.len(),
{
    if apps.len() == 0 {
        None
    } else {
        match first_app_fault(apps.drop_last()) {
            Some(fault) => Some(fault),
            None => app_fault(apps.drop_last(), apps.last()),
        }
    }
}

/// What is wrong with a manifest, if anything is.
pub open spec fn manifest_fault(manifest: ManifestView) -> Option<Seq<char>> {
    if manifest.flatbak.format_version == 0 {
        Some("format_version must be at least 1"@)
    } else if first_app_fault(manifest.apps) is Some {
        first_app_fault(manifest.apps)
    } else if exists|i: int|
        0 <= i < manifest.remotes.len() && (#[trigger] manifest.remotes[i]).name.len() == 0 {
        Some("a remote entry has no name"@)
    } else {
        None
    }
}

proof fn lemma_first_app_fault_prefix(apps: Seq<AppEntryView>, n: int)
    requires
        0 <= n <= apps.len(),
        first_app_fault(apps.take(n)) is Some,
    ensures
        first_app_fault(apps) == first_app_fault(apps.take(n)),
    decreases apps.len(),
{
    if n == apps.len() {
        assert(apps.take(n) =~= apps);
    } else {
        assert(apps.drop_last().take(n) =~= apps.take(n));
        lemma_first_app_fault_prefix(apps.drop_last(), n);
    }
}

/// Every application of a manifest without faults has a valid ID, and none of
/// them appears twice.
pub proof fn lemma_valid_manifest_apps(apps: Seq<AppEntryView>)
    requires
        first_app_fault(apps) is None,
    ensures
        forall|i: int| 0 <= i < apps.len() ==> valid_app_id((#[trigger] apps[i]).id),
        forall|i: int|
            0 <= i < apps.len() ==> (#[trigger] apps[i]).branch.len() > 0 && apps[i].arch.len() > 0,
        forall|i: int|
            0 <= i < apps.len() && (#[trigger] apps[i]).data_included ==> apps[i].data_path
                == payload_prefix_of(apps[i].id),
        forall|i: int, j: int|
            0 <= i < j < apps.len() ==> !same_place(#[trigger] apps[i], #[trigger] apps[j]),
    decreases apps.len(),
{
    if apps.len() > 0 {
        let rest = apps.drop_last();
        lemma_valid_manifest_apps(rest);
        let last = apps.last();
        assert forall|i: int| 0 <= i < apps.len() implies (#[trigger] apps[i]).branch.len() > 0
            && apps[i].arch.len() > 0 by {
            if i < rest.len() {
                assert(rest[i] == apps[i]);
            }
        }
        assert forall|i: int| 0 <= i < apps.len() implies valid_app_id(
            (#[trigger] apps[i]).id,
        ) by {
            if i < rest.len() {
                assert(rest[i] == apps[i]);
            }
        }
        assert forall|i: int|
            0 <= i < apps.len() && (#[trigger] apps[i]).data_included implies apps[i].data_path
            == payload_prefix_of(apps[i].id) by {
            if i < rest.len() {
                assert(rest[i] == apps[i]);
            }
        }
        assert forall|i: int, j: int| 0 <= i < j < apps.len() implies !same_place(
            #[trigger] apps[i],
            #[trigger] apps[j],
        ) by {
            assert(rest[i] == apps[i]);
            if j < rest.len() {
                assert(rest[j] == apps[j]);
            } else {
                assert(apps[j] == last);
            }
        }
    }
}

/// Entries that are sound one by one and each at a place of its own make a list
/// without faults.
pub proof fn lemma_sound_apps(apps: Seq<AppEntryView>)
    requires
        forall|i: int| 0 <= i < apps.len() ==> app_fault(Seq::empty(), #[trigger] apps[i]) is None,
        forall|i: int, j: int|
            0 <= i < j < apps.len() ==> !same_place(#[trigger] apps[i], #[trigger] apps[j]),
    ensures
        first_app_fault(apps) is None,
    decreases apps.len(),
{
    if apps.len() > 0 {
        let rest = apps.drop_last();
        assert forall|i: int| 0 <= i < rest.len() implies app_fault(
            Seq::empty(),
            #[trigger] rest[i],
        ) is None by {
            assert(rest[i] == apps[i]);
        }
        assert forall|i: int, j: int| 0 <= i < j < rest.len() implies !same_place(
            #[trigger] rest[i],
            #[trigger] rest[j],
        ) by {
            assert(rest[i] == apps[i] && rest[j] == apps[j]);
        }
        lemma_sound_apps(rest);
        let last = apps[apps.len() - 1];
        assert(app_fault(Seq::empty(), last) is None);
        assert forall|i: int| 0 <= i < rest.len() implies !same_place(
            #[trigger] rest[i],
            last,
        ) by {
            assert(rest[i] == apps[i]);
        }
    }
}

/// The outcome of reading a manifest: `version` is its format version and
/// `parsed` what this build makes of it, each unless it cannot be read.
pub open spec fn manifest_outcome(
    version: Result<u32, Seq<char>>,
    parsed: Result<ManifestView, Seq<char>>,
) -> Result<ManifestView, ArchiveErrorView> {
    match version {
        Err(message) => Err(ArchiveErrorView::InvalidManifest(message)),
        Ok(found) => if found > config::MANIFEST_FORMAT_VERSION_MAX {
            Err(
                ArchiveErrorView::UnsupportedVersion {
                    found,
                    supported: config::MANIFEST_FORMAT_VERSION_MAX,
                },
            )
        } else {
            match parsed {
                Err(message) => Err(ArchiveErrorView::InvalidManifest(message)),
                Ok(manifest) => match manifest_fault(manifest) {
                    Some(fault) => Err(ArchiveErrorView::InvalidManifest(fault)),
                    None => Ok(manifest),
                },
            }
        },
    }
}

/// A result in terms of what its values stand for.
pub open spec fn result_view<T: View, E: View>(result: Result<T, E>) -> Result<T::V, E::V> {
    match result {
        Ok(value) => Ok(value@),
        Err(error) => Err(error@),
    }
}

impl Manifest {
    /// Checks a manifest document that was parsed: `version` is what its format
    /// version alone was read as, `parsed` the whole of it.
    ///
    /// The version is read on its own first: a manifest from a future release
    /// may not fit this struct at all, and "please update" is a far better
    /// message than a field-level parse error.
    pub fn from_toml(version: Result<u32, String>, parsed: Result<Manifest, String>) -> (out:
        Result<Self, ArchiveError>)
        ensures
            result_view(out) == manifest_outcome(
                match version {
                    Ok(found) => Ok(found),
                    Err(message) => Err(message@),
                },
                result_view(parsed),
            ),
    {
        match version {
            Err(message) => {
                return Err(ArchiveError::InvalidManifest(message));
            },
            Ok(found) => {
                if found > config::MANIFEST_FORMAT_VERSION_MAX {
                    return Err(
                        ArchiveError::UnsupportedVersion {
                            found,
                            supported: config::MANIFEST_FORMAT_VERSION_MAX,
                        },
                    );
                }
            },
        }
        match parsed {
            Err(message) => Err(ArchiveError::InvalidManifest(message)),
            Ok(manifest) => match manifest.validate() {
                Ok(_) => Ok(manifest),
                Err(error) => Err(error),
            },
        }
    }

    /// Rejects manifests that are self-inconsistent or that describe payload
    /// paths we would refuse to extract anyway.
    pub fn validate(&self) -> (out: Result<(), ArchiveError>)
        ensures
            out is Ok <==> manifest_fault(self@) is None,
            out matches Err(error) ==> error@ == ArchiveErrorView::InvalidManifest(
                manifest_fault(self@)->0,
            ),
    {
        if self.flatbak.format_version == 0 {
            return Err(
                ArchiveError::InvalidManifest("format_version must be at least 1".to_owned()),
            );
        }
        let ghost all = views(self.apps@);
        let mut i: usize = 0;
        assert(all.take(0) =~= Seq::<AppEntryView>::empty());
        while i < self.apps.len()
            invariant
                i <= self.apps@.len(),
                all == views(self.apps@),
                self@.flatbak.format_version != 0,
                first_app_fault(all.take(i as int)) is None,
            decreases self.apps.len() - i,
        {
            proof {
                assert(all.take(i + 1).drop_last() =~= all.take(i as int));
                assert(all.take(i + 1).last() == self.apps@[i as int]@);
            }
            if let Some(fault) = self.fault_of(i) {
                proof {
                    lemma_first_app_fault_prefix(all, i + 1);
                }
                return Err(ArchiveError::InvalidManifest(fault));
            }
            i = i + 1;
        }
        assert(all.take(all.len() as int) =~= all);
        let mut k: usize = 0;
        while k < self.remotes.len()
            invariant
                k <= self.remotes@.len(),
                self@.flatbak.format_version != 0,
                first_app_fault(self@.apps) is None,
                forall|j: int| 0 <= j < k ==> (#[trigger] self@.remotes[j]).name.len() > 0,
            decreases self.remotes.len() - k,
        {
            assert(self@.remotes[k as int].name == self.remotes@[k as int].name@);
            if self.remotes[k].name.as_str().is_empty() {
                return Err(ArchiveError::InvalidManifest("a remote entry has no name".to_owned()));
            }
            k = k + 1;
        }
        Ok(())
    }

    /// What is wrong with the application at `index`.
    fn fault_of(&self, index: usize) -> (out: Option<String>)
        requires
            index < self.apps@.len(),
        ensures
            out is Some <==> app_fault(
                views(self.apps@).take(index as int),
                self.apps@[index as int]@,
            ) is Some,
            out matches Some(fault) ==> app_fault(
                views(self.apps@).take(index as int),
                self.apps@[index as int]@,
            ) == Some(fault@),
    {
        let app = &self.apps[index];
        if !is_valid_app_id(&app.id) {
            return Some(cat3("\u{201c}", &app.id, "\u{201d} is not a valid application ID"));
        }
        if app.branch.as_str().is_empty() || app.arch.as_str().is_empty() {
            return Some(cat2(&app.id, " is missing its branch or architecture"));
        }
        let ghost earlier = views(self.apps@).take(index as int);
        let mut i: usize = 0;
        while i < index
            invariant
                i <= index < self.apps@.len(),
                app == self.apps@[index as int],
                valid_app_id(app@.id),
                app@.branch.len() > 0,
                app@.arch.len() > 0,
                earlier == views(self.apps@).take(index as int),
                forall|k: int| 0 <= k < i ==> !same_place(#[trigger] earlier[k], app@),
            decreases index - i,
        {
            let other = &self.apps[i];
            assert(earlier[i as int] == other@);
            if same_text(&other.reference, &app.reference) && same_text(
                other.installation.as_str(),
                app.installation.as_str(),
            ) {
                assert(same_place(earlier[i as int], app@));
                return Some(cat2(&app.id, " appears twice for the same installation"));
            }
            i = i + 1;
        }
        if app.data_included && !same_text(&app.data_path, &app.payload_prefix()) {
            return Some(
                crate::text::cat4(
                    &app.id,
                    " declares an unexpected data path \u{201c}",
                    &app.data_path,
                    "\u{201d}",
                ),
            );
        }
        None
    }

    /// The remote entry matching `name`, if the archive recorded one.
    pub fn remote(&self, name: &str) -> (out: Option<&RemoteEntry>)
        ensures
            match out {
                Some(remote) => first_remote(self@.remotes, name@) == Some(remote@),
                None => first_remote(self@.remotes, name@) is None,
            },
    {
        let ghost all = self@.remotes;
        let mut i: usize = 0;
        assert(all.skip(0) =~= all);
        while i < self.remotes.len()
            invariant
                i <= self.remotes@.len(),
                all == views(self.remotes@),
                first_remote(all, name@) == first_remote(all.skip(i as int), name@),
            decreases self.remotes.len() - i,
        {
            proof {
                assert(all.skip(i as int)[0] == self.remotes@[i as int]@);
                assert(all.skip(i as int).skip(1) =~= all.skip(i + 1));
            }
            if same_text(&self.remotes[i].name, name) {
                return Some(&self.remotes[i]);
            }
            i = i + 1;
        }
        None
    }

    /// Distinct remote names the archive's applications need.
    pub fn required_remotes(&self) -> (out: Vec<String>)
        ensures
            strictly_sorted(views(out@)),
            forall|name: Seq<char>| #[trigger]
                views(out@).contains(name) <==> needs_remote(self@.apps, name),
    {
        needed_remotes(&self.apps)
    }

    /// Total uncompressed application data the archive claims to hold.
    pub fn total_data_bytes(&self) -> (total: u64)
        requires
            claimed_bytes(self@.apps) <= u64::MAX,
        ensures
            total == claimed_bytes(self@.apps),
    {
        match self.checked_total_data_bytes() {
            Some(total) => total,
            None => 0,
        }
    }

    /// Total uncompressed application data the archive claims to hold, if that
    /// can be counted.
    pub fn checked_total_data_bytes(&self) -> (total: Option<u64>)
        ensures
            total is Some <==> claimed_bytes(self@.apps) <= u64::MAX,
            total matches Some(n) ==> n == claimed_bytes(self@.apps),
    {
        let mut total: u64 = 0;
        let ghost all = self@.apps;
        let mut i: usize = 0;
        assert(all.take(0) =~= Seq::<AppEntryView>::empty());
        while i < self.apps.len()
            invariant
                i <= self.apps@.len(),
                all == views(self.apps@),
                total == claimed_bytes(all.take(i as int)),
            decreases self.apps.len() - i,
        {
            proof {
                assert(all.take(i + 1).drop_last() =~= all.take(i as int));
                assert(all.take(i + 1).last() == self.apps@[i as int]@);
                lemma_claimed_grows(all, i + 1);
            }
            if self.apps[i].data_included {
                match total.checked_add(self.apps[i].data_bytes) {
                    Some(sum) => {
                        total = sum;
                    },
                    None => {
                        return None;
                    },
                }
            }
            i = i + 1;
        }
        assert(all.take(all.len() as int) =~= all);
        Some(total)
    }

    pub fn apps_with_data(&self) -> (count: usize)
        ensures
            count == data_app_count(self@.apps),
    {
        count_with_data(&self.apps)
    }
}

/// The first one of `remotes` called `name`.
pub open spec fn first_remote(remotes: Seq<RemoteEntryView>, name: Seq<char>) -> Option<
    RemoteEntryView,
>
    decreases remotes.len(),
{
    if remotes.len() == 0 {
        None
    } else if remotes[0].name == name {
        Some(remotes[0])
    } else {
        first_remote(remotes.skip(1), name)
    }
}

/// A remote is found by its name alone, and the first of that name is the one that is
/// found. None is found only if there is none.
pub proof fn lemma_first_remote(remotes: Seq<RemoteEntryView>, name: Seq<char>)
    ensures
        forall|i: int|
            0 <= i < remotes.len() && (#[trigger] remotes[i]).name == name && (forall|j: int|
                0 <= j < i ==> (#[trigger] remotes[j]).name != name) ==> first_remote(remotes, name)
                == Some(remotes[i]),
        (forall|i: int| 0 <= i < remotes.len() ==> (#[trigger] remotes[i]).name != name)
            <==> first_remote(remotes, name) is None,
        first_remote(remotes, name) matches Some(remote) ==> remote.name == name,
    decreases remotes.len(),
{
    if remotes.len() > 0 {
        let rest = remotes.skip(1);
        lemma_first_remote(rest, name);
        assert forall|i: int|
            0 <= i < remotes.len() && (#[trigger] remotes[i]).name == name && (forall|j: int|
                0 <= j < i ==> (#[trigger] remotes[j]).name != name) implies first_remote(
            remotes,
            name,
        ) == Some(remotes[i]) by {
            if i > 0 {
                assert(remotes[0].name != name);
                assert(rest[i - 1] == remotes[i]);
                assert forall|j: int| 0 <= j < i - 1 implies (#[trigger] rest[j]).name != name by {
                    assert(rest[j] == remotes[j + 1]);
                }
            }
        }
        if first_remote(remotes, name) is None {
            assert forall|i: int| 0 <= i < remotes.len() implies (#[trigger] remotes[i]).name
                != name by {
                if i > 0 {
                    assert(rest[i - 1] == remotes[i]);
                }
            }
        }
        if forall|i: int| 0 <= i < remotes.len() ==> (#[trigger] remotes[i]).name != name {
            assert(remotes[0].name != name);
            assert forall|i: int| 0 <= i < rest.len() implies (#[trigger] rest[i]).name != name by {
                assert(rest[i] == remotes[i + 1]);
            }
        }
    }
}

/// True if one of `apps` came from the remote `name`.
pub open spec fn needs_remote(apps: Seq<AppEntryView>, name: Seq<char>) -> bool {
    exists|i: int|
        0 <= i < apps.len() && !(#[trigger] apps[i]).sideloaded() && apps[i].origin == name
}

/// How many bytes of data `apps` claim to hold.
pub open spec fn claimed_bytes(apps: Seq<AppEntryView>) -> nat
    decreases apps.len(),
{
    if apps.len() == 0 {
        0
    } else {
        claimed_bytes(apps.drop_last()) + if apps.last().data_included {
            apps.last().data_bytes as nat
        } else {
            0
        }
    }
}

proof fn lemma_claimed_grows(apps: Seq<AppEntryView>, n: int)
    requires
        0 <= n <= apps.len(),
    ensures
        claimed_bytes(apps.take(n)) <= claimed_bytes(apps),
    decreases apps.len(),
{
    if n == apps.len() {
        assert(apps.take(n) =~= apps);
    } else {
        assert(apps.drop_last().take(n) =~= apps.take(n));
        lemma_claimed_grows(apps.drop_last(), n);
    }
}

/// How many of `apps` come with data.
pub open spec fn data_app_count(apps: Seq<AppEntryView>) -> nat
    decreases apps.len(),
{
    if apps.len() == 0 {
        0
    } else {
        data_app_count(apps.drop_last()) + if apps.last().data_included {
            1nat
        } else {
            0
        }
    }
}

/// How many of `apps` come with data.
pub fn count_with_data(apps: &Vec<AppEntry>) -> (count: usize)
    ensures
        count == data_app_count(views(apps@)),
        count <= apps@.len(),
{
    let mut count: usize = 0;
    let ghost all = views(apps@);
    let mut i: usize = 0;
    assert(all.take(0) =~= Seq::<AppEntryView>::empty());
    while i < apps.len()
        invariant
            i <= apps@.len(),
            all == views(apps@),
            count <= i,
            count == data_app_count(all.take(i as int)),
        decreases apps.len() - i,
    {
        proof {
            assert(all.take(i + 1).drop_last() =~= all.take(i as int));
            assert(all.take(i + 1).last() == apps@[i as int]@);
        }
        if apps[i].data_included {
            count = count + 1;
        }
        i = i + 1;
    }
    assert(all.take(all.len() as int) =~= all);
    count
}

/// Distinct remote names that `apps` need.
pub fn needed_remotes(apps: &Vec<AppEntry>) -> (out: Vec<String>)
    ensures
        strictly_sorted(views(out@)),
        forall|name: Seq<char>| #[trigger]
            views(out@).contains(name) <==> needs_remote(views(apps@), name),
{
    let mut names: Vec<String> = Vec::new();
    let ghost all = views(apps@);
    let mut i: usize = 0;
    while i < apps.len()
        invariant
            i <= apps@.len(),
            all == views(apps@),
            forall|name: Seq<char>| #[trigger]
                views(names@).contains(name) <==> needs_remote(all.take(i as int), name),
        decreases apps.len() - i,
    {
        let app = &apps[i];
        let ghost before = views(names@);
        let ghost seen = all.take(i as int);
        let ghost more = all.take(i + 1);
        proof {
            assert(more[i as int] == app@);
            assert forall|name: Seq<char>| #[trigger] needs_remote(more, name) <==> (needs_remote(
                seen,
                name,
            ) || (!app@.sideloaded() && app@.origin == name)) by {
                if needs_remote(seen, name) {
                    let k = choose|k: int|
                        0 <= k < seen.len() && !(#[trigger] seen[k]).sideloaded() && seen[k].origin
                            == name;
                    assert(more[k] == seen[k]);
                }
                if needs_remote(more, name) {
                    let k = choose|k: int|
                        0 <= k < more.len() && !(#[trigger] more[k]).sideloaded() && more[k].origin
                            == name;
                    if k < i {
                        assert(seen[k] == more[k]);
                    }
                }
            }
        }
        if !app.is_sideloaded() {
            names.push(app.origin.clone());
            proof {
                let after = views(names@);
                assert(after =~= before.push(app@.origin));
                assert forall|name: Seq<char>| #[trigger] after.contains(name) <==> needs_remote(
                    more,
                    name,
                ) by {
                    assert(after.contains(name) <==> (before.contains(name) || name
                        == app@.origin)) by {
                        if before.contains(name) {
                            let k = choose|k: int| 0 <= k < before.len() && before[k] == name;
                            assert(after[k] == name);
                        }
                        if name == app@.origin {
                            assert(after[before.len() as int] == name);
                        }
                    }
                    assert(needs_remote(more, name) <==> (needs_remote(seen, name) || (
                    !app@.sideloaded() && app@.origin == name)));
                }
            }
        } else {
            proof {
                assert forall|name: Seq<char>| #[trigger] views(names@).contains(
                    name,
                ) <==> needs_remote(more, name) by {
                    assert(needs_remote(more, name) <==> (needs_remote(seen, name) || (
                    !app@.sideloaded() && app@.origin == name)));
                }
            }
        }
        i = i + 1;
    }
    assert(all.take(all.len() as int) =~= all);
    let out = sorted_names(&names);
    assert forall|name: Seq<char>| #[trigger] views(out@).contains(name) <==> needs_remote(
        all,
        name,
    ) by {
        assert(views(out@).contains(name) <==> views(names@).contains(name));
    }
    out
}

// --------------------------------------------------------------------- laws

/// A manifest is accepted if and only if it has a version, each application has a
/// valid ID, a branch and an architecture, none appears twice for one installation,
/// data lies where the application's data belongs, and each remote has a name.
pub proof fn lemma_sound_manifests_are_accepted(manifest: ManifestView)
    ensures
        manifest_fault(manifest) is None <==> {
            &&& manifest.flatbak.format_version >= 1
            &&& forall|i: int|
                0 <= i < manifest.apps.len() ==> {
                    let app = #[trigger] manifest.apps[i];
                    &&& valid_app_id(app.id)
                    &&& app.branch.len() > 0
                    &&& app.arch.len() > 0
                    &&& app.data_included ==> app.data_path == "data"@ + "/"@ + app.id
                }
            &&& forall|i: int, j: int|
                0 <= i < j < manifest.apps.len() ==> !((#[trigger] manifest.apps[i]).reference == (
                #[trigger] manifest.apps[j]).reference && installation_name(
                    manifest.apps[i].installation,
                ) == installation_name(manifest.apps[j].installation))
            &&& forall|i: int|
                0 <= i < manifest.remotes.len() ==> (#[trigger] manifest.remotes[i]).name.len() > 0
        },
{
    let apps = manifest.apps;
    if first_app_fault(apps) is None {
        lemma_valid_manifest_apps(apps);
        assert forall|i: int, j: int| 0 <= i < j < apps.len() implies !((
        #[trigger] apps[i]).reference == (#[trigger] apps[j]).reference && installation_name(
            apps[i].installation,
        ) == installation_name(apps[j].installation)) by {
            assert(!same_place(apps[i], apps[j]));
        }
    }
    if (forall|i: int|
        0 <= i < apps.len() ==> {
            let app = #[trigger] apps[i];
            &&& valid_app_id(app.id)
            &&& app.branch.len() > 0
            &&& app.arch.len() > 0
            &&& app.data_included ==> app.data_path == "data"@ + "/"@ + app.id
        }) && (forall|i: int, j: int|
        0 <= i < j < apps.len() ==> !((#[trigger] apps[i]).reference == (
        #[trigger] apps[j]).reference && installation_name(apps[i].installation)
            == installation_name(apps[j].installation))) {
        assert forall|i: int| 0 <= i < apps.len() implies app_fault(
            Seq::empty(),
            #[trigger] apps[i],
        ) is None by {}
        lemma_sound_apps(apps);
    }
}

/// A manifest of a newer format is refused as such, whatever else it holds. One that
/// is accepted is what was read.
pub proof fn lemma_newer_manifests_are_refused(
    version: Result<u32, Seq<char>>,
    parsed: Result<ManifestView, Seq<char>>,
)
    ensures
        version matches Ok(found) ==> {
            &&& found > 1 ==> manifest_outcome(version, parsed) == Err::<
                ManifestView,
                ArchiveErrorView,
            >(ArchiveErrorView::UnsupportedVersion { found, supported: 1 })
            &&& found <= 1 && parsed is Ok && manifest_fault(parsed->Ok_0) is None
                ==> manifest_outcome(version, parsed) == Ok::<ManifestView, ArchiveErrorView>(
                parsed->Ok_0,
            )
        },
        manifest_outcome(version, parsed) matches Ok(manifest) ==> {
            &&& version matches Ok(found) && found <= 1
            &&& parsed == Ok::<ManifestView, Seq<char>>(manifest)
            &&& manifest_fault(manifest) is None
        },
{
}

/// What the applications claim adds up: how much data they come with, and how many
/// come with any. Data that is not in the archive does not count.
pub proof fn lemma_claims_add_up(a: Seq<AppEntryView>, b: Seq<AppEntryView>, app: AppEntryView)
    ensures
        claimed_bytes(a + b) == claimed_bytes(a) + claimed_bytes(b),
        data_app_count(a + b) == data_app_count(a) + data_app_count(b),
        app.data_included ==> claimed_bytes(seq![app]) == app.data_bytes && data_app_count(
            seq![app],
        ) == 1,
        !app.data_included ==> claimed_bytes(seq![app]) == 0 && data_app_count(seq![app]) == 0,
    decreases b.len(),
{
    let one = seq![app];
    assert(one.drop_last() =~= Seq::<AppEntryView>::empty());
    assert(claimed_bytes(one.drop_last()) == 0 && data_app_count(one.drop_last()) == 0);
    assert(one.last() == app);
    if b.len() == 0 {
        assert(a + b =~= a);
    } else {
        lemma_claims_add_up(a, b.drop_last(), app);
        assert((a + b).drop_last() =~= a + b.drop_last());
        assert((a + b).last() == b.last());
    }
}

/// A remote is needed if an application came from it, and only then.
pub proof fn lemma_needed_remotes(apps: Seq<AppEntryView>, name: Seq<char>)
    ensures
        needs_remote(apps, name) <==> name.len() > 0 && exists|i: int|
            0 <= i < apps.len() && (#[trigger] apps[i]).origin == name,
{
    if name.len() > 0 && exists|i: int| 0 <= i < apps.len() && (#[trigger] apps[i]).origin == name {
        let i = choose|i: int| 0 <= i < apps.len() && (#[trigger] apps[i]).origin == name;
        assert(!apps[i].sideloaded());
    }
}

/// Applications and remotes are shown by their names and titles, or by what stands for
/// them where there are none.
pub proof fn lemma_how_entries_are_shown(app: AppEntryView, remote: RemoteEntryView)
    ensures
        app.name.len() > 0 ==> app.shown_name() == app.name,
        app.name.len() == 0 ==> app.shown_name() == app.id,
        app.sideloaded() <==> app.origin.len() == 0,
        remote.title.len() > 0 ==> remote.shown_title() == remote.title,
        remote.title.len() == 0 ==> remote.shown_title() == remote.name,
{
}

} // verus!
