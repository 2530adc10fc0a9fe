//! Opening, validating and restoring a `.flatbak` archive.
//!
//! Every archive is checked in three stages, cheapest first, so a bad file is
//! rejected before anything on the system is touched:
//!
//! 1. [`Frame::read`] and [`Backup::open`] verify the framing (signature, header
//!    CRC, declared lengths against the real file size) and the manifest.
//! 2. [`PayloadCheck`] hashes the compressed payload and compares it with the
//!    trailer. This reads the file but decompresses nothing.
//! 3. [`Extraction`] validates every entry path and type as it goes.

pub use crate::backup::extract::{
    split_payload_path, unpack_entry, EntryAction, EntryKind, Extraction, ReadLimit, Unpack,
};
pub use crate::backup::restore::{
    install_one, is_safe_token, restore, InstallPlan, Phase, Restore, RestoreAction,
};

use vstd::prelude::*;
use vstd::utf8::*;
use crate::backup::container::{
    file_len, has_signature, header_bytes, header_of, lemma_header_len, lemma_header_round_trips,
    lemma_trailer_round_trips, sha256, trailer_bytes, trailer_of, HashingLimitReader, Header,
    Trailer, CONTAINER_VERSION, HEADER_LEN, MAGIC, TRAILER_LEN,
};
use crate::backup::manifest::{
    first_remote, lemma_first_remote, manifest_outcome, result_view, AppEntryView, Manifest,
    ManifestView,
};
use crate::error::{
    ArchiveError, ArchiveErrorView, Cancelled, Failure,
    FailureView, Issue, IssueView,
};
use crate::flatpak::model::{Installation, InstallationView, Remote, RemoteView};
use crate::text::{
    cat2, cat3, cat4, decimal, decimal_text, lossy_text, same_bytes, same_text,
    text_from_utf8, text_lossy, views,
};

verus! {

// ------------------------------------------------------------------ opening

/// Why a file could not be opened.
#[derive(Debug)]
pub enum OpenError {
    NotFound,
    PermissionDenied,
    Other(String),
}

/// What a failure to open the archive at `path` means.
pub fn open_failure(path: &[u8], error: OpenError) -> (out: Failure)
    ensures
        out@ == FailureView::Message(
            match error {
                OpenError::NotFound => lossy_text(path@) + " no longer exists."@,
                OpenError::PermissionDenied => "Permission denied reading "@ + lossy_text(path@)
                    + "."@,
                OpenError::Other(message) => "Could not open "@ + lossy_text(path@) + ": "@
                    + message@,
            },
        ),
{
    let shown = text_lossy(path);
    match error {
        OpenError::NotFound => Failure::Message(cat2(&shown, " no longer exists.")),
        OpenError::PermissionDenied => Failure::Message(
            cat3("Permission denied reading ", &shown, "."),
        ),
        OpenError::Other(message) => Failure::Message(
            cat4("Could not open ", &shown, ": ", &message),
        ),
    }
}

/// The header and the trailer of an archive whose framing is sound.
#[derive(Debug, Clone, Copy)]
pub struct Frame {
    pub header: Header,
    pub trailer: Trailer,
}

/// What a file too short for any archive is.
pub open spec fn short_file_error(path: Seq<u8>, file_size: nat) -> ArchiveErrorView {
    if file_size == 0 {
        ArchiveErrorView::NotAFlatbakArchive(path)
    } else {
        ArchiveErrorView::Truncated
    }
}

/// The header in the first bytes of the file at `path`, which is `file_size` bytes
/// long, and the digest in its last, or what is wrong with them.
pub open spec fn frame_of(path: Seq<u8>, file_size: nat, head: Seq<u8>, tail: Seq<u8>) -> Result<
    (Header, Seq<u8>),
    ArchiveErrorView,
> {
    if file_size < HEADER_LEN + TRAILER_LEN {
        Err(short_file_error(path, file_size))
    } else if head.subrange(0, 8) != MAGIC@ {
        // A bad signature almost always means the user picked the wrong file,
        // which deserves a clearer message than "damaged".
        Err(ArchiveErrorView::NotAFlatbakArchive(path))
    } else {
        match header_of(head) {
            Err(error) => Err(error),
            Ok(header) => if file_len(header) > file_size {
                Err(ArchiveErrorView::Truncated)
            } else if file_len(header) < file_size {
                Err(
                    ArchiveErrorView::Corrupt(
                        "the file is "@ + decimal((file_size - file_len(header)) as nat)
                            + " bytes longer than its header describes"@,
                    ),
                )
            } else {
                match trailer_of(tail) {
                    Err(error) => Err(error),
                    Ok(digest) => Ok((header, digest)),
                }
            },
        }
    }
}

impl Frame {
    /// Refuses a file that is too short to hold a header and a trailer.
    pub fn check_size(path: &[u8], file_size: u64) -> (out: Result<(), ArchiveError>)
        ensures
            out is Ok <==> file_size >= HEADER_LEN + TRAILER_LEN,
            out matches Err(error) ==> error@ == short_file_error(path@, file_size as nat),
    {
        if file_size < HEADER_LEN + TRAILER_LEN {
            if file_size == 0 {
                return Err(ArchiveError::NotAFlatbakArchive(crate::path::bytes_of(path)));
            }
            return Err(ArchiveError::Truncated);
        }
        Ok(())
    }

    /// Checks the first and last bytes of the file at `path`, and its length.
    pub fn read(path: &[u8], file_size: u64, head: &[u8; 32], tail: &[u8; 40]) -> (out: Result<
        Frame,
        ArchiveError,
    >)
        ensures
            match out {
                Ok(frame) => frame_of(path@, file_size as nat, head@, tail@) == Ok::<
                    (Header, Seq<u8>),
                    ArchiveErrorView,
                >((frame.header, frame.trailer@)),
                Err(error) => frame_of(path@, file_size as nat, head@, tail@) == Err::<
                    (Header, Seq<u8>),
                    ArchiveErrorView,
                >(error@),
            },
    {
        match Frame::check_size(path, file_size) {
            Err(error) => {
                return Err(error);
            },
            Ok(_) => {},
        }
        if !has_signature(head) {
            return Err(ArchiveError::NotAFlatbakArchive(crate::path::bytes_of(path)));
        }
        let header = match Header::decode(head) {
            Ok(header) => header,
            Err(error) => {
                return Err(error);
            },
        };
        // The declared lengths may add up to more than a file length can be.
        let expected: u128 = HEADER_LEN as u128 + header.manifest_len as u128
            + header.payload_len as u128 + TRAILER_LEN as u128;
        if expected > file_size as u128 {
            return Err(ArchiveError::Truncated);
        }
        if expected < file_size as u128 {
            let excess: u64 = file_size - header.expected_file_len();
            return Err(
                ArchiveError::Corrupt(
                    cat3(
                        "the file is ",
                        &decimal_text(excess),
                        " bytes longer than its header describes",
                    ),
                ),
            );
        }
        match Trailer::decode(tail) {
            Ok(trailer) => Ok(Frame { header, trailer }),
            Err(error) => Err(error),
        }
    }
}

/// The bytes of an archive with this manifest and payload, both compressed.
pub open spec fn archive_bytes(manifest: Seq<u8>, payload: Seq<u8>) -> Seq<u8> {
    let header = Header {
        container_version: CONTAINER_VERSION,
        manifest_len: manifest.len() as u32,
        payload_len: payload.len() as u64,
    };
    header_bytes(header) + manifest + payload + trailer_bytes(sha256(payload)@)
}

/// What was written is found again: the framing of a written archive is sound,
/// its header describes where the manifest and the payload are, and its trailer
/// holds the digest of the payload.
pub proof fn lemma_written_archive_opens(path: Seq<u8>, manifest: Seq<u8>, payload: Seq<u8>)
    requires
        manifest.len() <= u32::MAX,
        payload.len() <= u64::MAX,
    ensures
        ({
            let file = archive_bytes(manifest, payload);
            let n = file.len() as int;
            let header = Header {
                container_version: CONTAINER_VERSION,
                manifest_len: manifest.len() as u32,
                payload_len: payload.len() as u64,
            };
            &&& n == file_len(header)
            &&& frame_of(path, n as nat, file.subrange(0, 32), file.subrange(n - 40, n)) == Ok::<
                (Header, Seq<u8>),
                ArchiveErrorView,
            >((header, sha256(payload)@))
            &&& file.subrange(32, n - 40 - payload.len()) == manifest
            &&& file.subrange(n - 40 - payload.len(), n - 40) == payload
        }),
{
    let header = Header {
        container_version: CONTAINER_VERSION,
        manifest_len: manifest.len() as u32,
        payload_len: payload.len() as u64,
    };
    let file = archive_bytes(manifest, payload);
    let n = file.len() as int;
    lemma_header_len(header);
    lemma_header_round_trips(header);
    lemma_trailer_round_trips(sha256(payload)@);
    assert(file.subrange(0, 32) =~= header_bytes(header));
    assert(file.subrange(n - 40, n) =~= trailer_bytes(sha256(payload)@));
    assert(file.subrange(32, n - 40 - payload.len()) =~= manifest);
    assert(file.subrange(n - 40 - payload.len(), n - 40) =~= payload);
}

// ----------------------------------------------------------------- manifest

/// What the zstd frames in `bytes` hold, if they are sound.
pub uninterp spec fn zstd_content(bytes: Seq<u8>) -> Option<Seq<u8>>;

/// `zstd::decode_all`: what the zstd frames in `bytes` hold. When it fails, which
/// it may for want of memory too, only the system's words are handed on.
#[verifier::external_body]
fn decompress(bytes: &[u8]) -> (out: Result<Vec<u8>, String>)
    ensures
        out matches Ok(content) ==> zstd_content(bytes@) == Some(content@),
{
    zstd::decode_all(bytes).map_err(|error| error.to_string())
}

/// The error for a manifest that cannot be decompressed.
pub open spec fn undecodable(message: Seq<char>) -> ArchiveErrorView {
    ArchiveErrorView::Corrupt("manifest: "@ + message)
}

/// The manifest text in what was decompressed.
pub open spec fn text_outcome(decoded: Result<Seq<u8>, Seq<char>>) -> Result<
    Seq<u8>,
    ArchiveErrorView,
> {
    match decoded {
        Err(message) => Err(undecodable(message)),
        Ok(bytes) => if valid_utf8(bytes) {
            Ok(bytes)
        } else {
            Err(ArchiveErrorView::InvalidManifest("not valid UTF-8"@))
        },
    }
}

/// The manifest text in what was decompressed, or what is wrong with it.
pub fn decoded_manifest(decoded: Result<Vec<u8>, String>) -> (out: Result<String, ArchiveError>)
    ensures
        match out {
            Ok(text) => text_outcome(result_view(decoded)) == Ok::<Seq<u8>, ArchiveErrorView>(
                encode_utf8(text@),
            ),
            Err(error) => text_outcome(result_view(decoded)) == Err::<Seq<u8>, ArchiveErrorView>(
                error@,
            ),
        },
{
    match decoded {
        Err(message) => Err(ArchiveError::Corrupt(cat2("manifest: ", &message))),
        Ok(bytes) => match text_from_utf8(bytes) {
            Some(text) => Ok(text),
            None => Err(ArchiveError::InvalidManifest("not valid UTF-8".to_owned())),
        },
    }
}

/// The manifest text in the compressed bytes of an archive.
pub fn manifest_text(compressed: &[u8]) -> (out: Result<String, ArchiveError>)
    ensures
        out matches Ok(text) ==> zstd_content(compressed@) == Some(encode_utf8(text@)),
        out matches Err(error) ==> {
            ||| exists|message: Seq<char>| error@ == #[trigger] undecodable(message)
            ||| error@ == ArchiveErrorView::InvalidManifest("not valid UTF-8"@) && (zstd_content(
                compressed@,
            ) matches Some(bytes) && !valid_utf8(bytes))
        },
{
    decoded_manifest(decompress(compressed))
}

/// An opened archive: framing checked, manifest parsed, payload untouched.
#[derive(Debug, Clone)]
pub struct Backup {
    pub path: Vec<u8>,
    pub header: Header,
    pub trailer: Trailer,
    pub manifest: Manifest,
    pub file_size: u64,
}

/// The outcome of opening an archive whose framing is sound, given what its
/// manifest was read as.
pub open spec fn open_outcome(
    version: Result<u32, Seq<char>>,
    parsed: Result<ManifestView, Seq<char>>,
) -> Result<ManifestView, ArchiveErrorView> {
    match manifest_outcome(version, parsed) {
        Err(error) => Err(error),
        Ok(manifest) => if manifest.flatbak.app_count != 0 && manifest.flatbak.app_count
            != manifest.apps.len() {
            Err(
                ArchiveErrorView::InvalidManifest(
                    "the manifest lists "@ + decimal(manifest.apps.len())
                        + " applications but declares "@ + decimal(
                        manifest.flatbak.app_count as nat,
                    ),
                ),
            )
        } else {
            Ok(manifest)
        },
    }
}

impl Backup {
    /// Opens an archive whose framing is sound without decompressing its payload:
    /// `version` is what its manifest's format version alone was read as, `parsed`
    /// the whole of it.
    pub fn open(
        path: &[u8],
        file_size: u64,
        frame: Frame,
        version: Result<u32, String>,
        parsed: Result<Manifest, String>,
    ) -> (out: Result<Self, ArchiveError>)
        ensures
            ({
                let outcome = open_outcome(
                    match version {
                        Ok(found) => Ok(found),
                        Err(message) => Err(message@),
                    },
                    result_view(parsed),
                );
                match out {
                    Ok(backup) => {
                        &&& outcome == Ok::<ManifestView, ArchiveErrorView>(backup.manifest@)
                        &&& backup.path@ == path@
                        &&& backup.header == frame.header
                        &&& backup.trailer == frame.trailer
                        &&& backup.file_size == file_size
                    },
                    Err(error) => outcome == Err::<ManifestView, ArchiveErrorView>(error@),
                }
            }),
    {
        let manifest = match Manifest::from_toml(version, parsed) {
            Ok(manifest) => manifest,
            Err(error) => {
                return Err(error);
            },
        };
        if manifest.flatbak.app_count != 0 && manifest.flatbak.app_count as u64
            != manifest.apps.len() as u64 {
            return Err(
                ArchiveError::InvalidManifest(
                    cat4(
                        "the manifest lists ",
                        &decimal_text(manifest.apps.len() as u64),
                        " applications but declares ",
                        &decimal_text(manifest.flatbak.app_count as u64),
                    ),
                ),
            );
        }
        Ok(
            Backup {
                path: crate::path::bytes_of(path),
                header: frame.header,
                trailer: frame.trailer,
                manifest,
                file_size,
            },
        )
    }

    /// Starts hashing the compressed payload, to compare it with the trailer.
    ///
    /// Nothing is decompressed, so this is disk-bound rather than CPU-bound and
    /// worth doing up front: it means a damaged archive is rejected before any
    /// application is installed or any data directory is replaced.
    pub fn verify_payload(&self) -> (out: PayloadCheck)
        ensures
            out.total() == self.header.payload_len,
            out.content() == Seq::<u8>::empty(),
            out.wf(),
    {
        PayloadCheck::new(self.header.payload_len)
    }
}

// ------------------------------------------------------------- verification

/// A payload being hashed piece by piece.
pub struct PayloadCheck {
    reader: HashingLimitReader<()>,
    total: u64,
}

impl PayloadCheck {
    /// What was read so far.
    pub closed spec fn content(&self) -> Seq<u8> {
        self.reader.content()
    }

    /// How long the payload is.
    pub closed spec fn total(&self) -> u64 {
        self.total
    }

    /// No more was read than there is.
    pub closed spec fn wf(&self) -> bool {
        self.reader.content().len() + self.reader.left() == self.total
    }

    fn new(total: u64) -> (out: PayloadCheck)
        ensures
            out.total() == total,
            out.content() == Seq::<u8>::empty(),
            out.wf(),
    {
        PayloadCheck { reader: HashingLimitReader::new((), total), total }
    }

    /// How many bytes to read next into a buffer of `len` bytes, or `None` when
    /// the whole payload was read.
    pub fn want(&self, len: usize, cancelled: bool) -> (out: Result<Option<usize>, Failure>)
        requires
            self.wf(),
        ensures
            ({
                let left = self.total() - self.content().len();
                match out {
                    Ok(None) => left == 0,
                    Ok(Some(n)) => left > 0 && !cancelled && n == if len <= left {
                        len as int
                    } else {
                        left
                    },
                    Err(error) => left > 0 && cancelled && error@ == FailureView::Cancelled,
                }
            }),
    {
        if self.reader.remaining() == 0 {
            return Ok(None);
        }
        if cancelled {
            return Err(Failure::Cancelled(Cancelled));
        }
        Ok(Some(self.reader.allowance(len)))
    }

    /// Takes in what was read. Having read nothing means that the file ended.
    /// Returns how much was read of how much, for the progress bar.
    pub fn feed(&mut self, data: &[u8]) -> (out: Result<(u64, u64), Failure>)
        requires
            old(self).wf(),
            old(self).content().len() + data@.len() <= old(self).total(),
        ensures
            final(self).wf(),
            final(self).total() == old(self).total(),
            final(self).content() == old(self).content() + data@,
            match out {
                Ok((done, total)) => data@.len() > 0 && done == final(self).content().len()
                    && total == final(self).total(),
                Err(error) => data@.len() == 0 && error@ == FailureView::Archive(
                    ArchiveErrorView::Truncated,
                ),
            },
    {
        self.reader.absorb(data);
        if data.len() == 0 {
            return Err(Failure::Archive(ArchiveError::Truncated));
        }
        Ok((self.total - self.reader.remaining(), self.total))
    }

    /// Compares the digest of the payload, once all of it was read, with the one in
    /// the trailer.
    pub fn finish(self, trailer: &Trailer) -> (out: Result<(), Failure>)
        requires
            self.wf(),
            self.content().len() == self.total(),
        ensures
            out is Ok <==> sha256(self.content())@ == trailer@,
            out matches Err(error) ==> error@ == FailureView::Archive(
                ArchiveErrorView::ChecksumMismatch,
            ),
    {
        let digest = self.reader.finish();
        if same_bytes(&digest, &trailer.payload_sha256) {
            Ok(())
        } else {
            Err(Failure::Archive(ArchiveError::ChecksumMismatch))
        }
    }
}

// ---------------------------------------------------------- missing remotes

/// A remote an archive needs but which is not configured here.
#[derive(Debug, PartialEq, Eq)]
pub struct MissingRemote {
    pub name: String,
    /// URL recorded in the archive; empty when the archive did not have one.
    pub url: String,
    pub title: String,
    pub installation: Installation,
    /// Applications that need it, for the explanatory text.
    pub apps: Vec<String>,
}

pub struct MissingRemoteView {
    pub name: Seq<char>,
    pub url: Seq<char>,
    pub title: Seq<char>,
    pub installation: InstallationView,
    pub apps: Seq<Seq<char>>,
}

impl View for MissingRemote {
    type V = MissingRemoteView;

    open spec fn view(&self) -> MissingRemoteView {
        MissingRemoteView {
            name: self.name@,
            url: self.url@,
            title: self.title@,
            installation: self.installation@,
            apps: views(self.apps@),
        }
    }
}

impl MissingRemote {
    /// True when FlatBak can add this remote unattended.
    pub fn can_add(&self) -> (yes: bool)
        ensures
            yes <==> self@.url.len() > 0,
    {
        !self.url.as_str().is_empty()
    }
}

impl Clone for MissingRemote {
    fn clone(&self) -> (out: Self)
        ensures
            out@ == self@,
    {
        let mut apps: Vec<String> = Vec::new();
        let mut i: usize = 0;
        while i < self.apps.len()
            invariant
                i <= self.apps@.len(),
                apps@.len() == i,
                forall|k: int| 0 <= k < i ==> (#[trigger] apps@[k])@ == self.apps@[k]@,
            decreases self.apps.len() - i,
        {
            apps.push(self.apps[i].clone());
            i = i + 1;
        }
        assert(views(apps@) =~= views(self.apps@));
        MissingRemote {
            name: self.name.clone(),
            url: self.url.clone(),
            title: self.title.clone(),
            installation: self.installation.clone(),
            apps,
        }
    }
}

/// Where `app` will be installed.
pub open spec fn target_installation(app: AppEntryView, install_to_user: bool) -> InstallationView {
    if install_to_user {
        InstallationView::User
    } else {
        app.installation
    }
}

/// True if a remote of that name is configured for that installation.
pub open spec fn is_configured(
    configured: Seq<RemoteView>,
    name: Seq<char>,
    installation: InstallationView,
) -> bool {
    exists|i: int|
        0 <= i < configured.len() && (#[trigger] configured[i]).name == name
            && configured[i].installation == installation
}

/// Position of the first entry for that remote in that installation, or the
/// length where there is none.
pub open spec fn missing_position(
    missing: Seq<MissingRemoteView>,
    name: Seq<char>,
    installation: InstallationView,
) -> nat
    decreases missing.len(),
{
    if missing.len() == 0 {
        0
    } else if missing[0].name == name && missing[0].installation == installation {
        0
    } else {
        1 + missing_position(missing.skip(1), name, installation)
    }
}

/// `missing` once `app` was considered.
pub open spec fn missing_with(
    missing: Seq<MissingRemoteView>,
    app: AppEntryView,
    manifest: ManifestView,
    configured: Seq<RemoteView>,
    install_to_user: bool,
) -> Seq<MissingRemoteView> {
    let installation = target_installation(app, install_to_user);
    let at = missing_position(missing, app.origin, installation) as int;
    if app.sideloaded() || is_configured(configured, app.origin, installation) {
        missing
    } else if at < missing.len() {
        missing.update(
            at,
            MissingRemoteView { apps: missing[at].apps.push(app.shown_name()), ..missing[at] },
        )
    } else {
        let recorded = first_remote(manifest.remotes, app.origin);
        missing.push(
            MissingRemoteView {
                name: app.origin,
                url: match recorded {
                    Some(remote) => remote.url,
                    None => Seq::empty(),
                },
                title: match recorded {
                    Some(remote) => remote.shown_title(),
                    None => app.origin,
                },
                installation,
                apps: seq![app.shown_name()],
            },
        )
    }
}

/// The remotes that the first `n` applications of `manifest` need and that are not
/// configured.
pub open spec fn missing_among(
    manifest: ManifestView,
    n: nat,
    configured: Seq<RemoteView>,
    install_to_user: bool,
) -> Seq<MissingRemoteView>
    decreases n,
{
    if n == 0 {
        Seq::empty()
    } else {
        missing_with(
            missing_among(manifest, (n - 1) as nat, configured, install_to_user),
            manifest.apps[n - 1],
            manifest,
            configured,
            install_to_user,
        )
    }
}

fn configured_for(configured: &Vec<Remote>, name: &str, installation: &Installation) -> (yes: bool)
    ensures
        yes == is_configured(views(configured@), name@, installation@),
{
    let ghost all = views(configured@);
    let mut i: usize = 0;
    while i < configured.len()
        invariant
            i <= configured@.len(),
            all == views(configured@),
            forall|k: int|
                0 <= k < i ==> !((#[trigger] all[k]).name == name@ && all[k].installation
                    == installation@),
        decreases configured.len() - i,
    {
        assert(all[i as int] == configured@[i as int]@);
        if same_text(&configured[i].name, name) && configured[i].installation.same_as(
            installation,
        ) {
            return true;
        }
        i = i + 1;
    }
    false
}

fn find_missing(missing: &Vec<MissingRemote>, name: &str, installation: &Installation) -> (at:
    usize)
    ensures
        at == missing_position(views(missing@), name@, installation@),
        at <= missing@.len(),
{
    let ghost all = views(missing@);
    let mut i: usize = 0;
    assert(all.skip(0) =~= all);
    while i < missing.len()
        invariant
            i <= missing@.len(),
            all == views(missing@),
            missing_position(all, name@, installation@) == i + missing_position(
                all.skip(i as int),
                name@,
                installation@,
            ),
        decreases missing.len() - i,
    {
        proof {
            assert(all.skip(i as int)[0] == missing@[i as int]@);
            assert(all.skip(i as int).skip(1) =~= all.skip(i + 1));
        }
        if same_text(&missing[i].name, name) && missing[i].installation.same_as(installation) {
            return i;
        }
        i = i + 1;
    }
    i
}

impl Backup {
    /// Remote names the archive needs that are not configured on this system.
    ///
    /// Only the installation the application will actually land in is
    /// considered, because a remote configured per-user does not help a
    /// system-wide install.
    pub fn missing_remotes(&self, configured: &Vec<Remote>, install_to_user: bool) -> (out: Vec<
        MissingRemote,
    >)
        ensures
            views(out@) == missing_among(
                self.manifest@,
                self.manifest@.apps.len(),
                views(configured@),
                install_to_user,
            ),
    {
        let mut missing: Vec<MissingRemote> = Vec::new();
        let ghost manifest = self.manifest@;
        let ghost known = views(configured@);
        let mut i: usize = 0;
        assert(views(missing@) =~= Seq::<MissingRemoteView>::empty());
        while i < self.manifest.apps.len()
            invariant
                i <= self.manifest.apps@.len(),
                manifest == self.manifest@,
                known == views(configured@),
                views(missing@) == missing_among(manifest, i as nat, known, install_to_user),
            decreases self.manifest.apps.len() - i,
        {
            let app = &self.manifest.apps[i];
            let ghost before = views(missing@);
            assert(manifest.apps[i as int] == app@);
            let installation = if install_to_user {
                Installation::User
            } else {
                app.installation.clone()
            };
            if !app.is_sideloaded() && !configured_for(configured, &app.origin, &installation) {
                let at: usize = find_missing(&missing, &app.origin, &installation);
                if at < missing.len() {
                    let mut entry = missing[at].clone();
                    let ghost apps = views(entry.apps@);
                    entry.apps.push(app.display_name().to_owned());
                    proof {
                        assert(views(entry.apps@) =~= apps.push(app@.shown_name()));
                        assert(before[at as int] == missing@[at as int]@);
                    }
                    let ghost updated = entry@;
                    missing.set(at, entry);
                    assert(views(missing@) =~= before.update(at as int, updated));
                } else {
                    let mut url = String::new();
                    assert(url@ =~= Seq::<char>::empty());
                    let mut title = app.origin.clone();
                    if let Some(remote) = self.manifest.remote(&app.origin) {
                        url = remote.url.clone();
                        title = remote.display_title().to_owned();
                    }
                    let mut apps: Vec<String> = Vec::new();
                    apps.push(app.display_name().to_owned());
                    assert(views(apps@) =~= seq![app@.shown_name()]);
                    let entry = MissingRemote {
                        name: app.origin.clone(),
                        url,
                        title,
                        installation,
                        apps,
                    };
                    let ghost added = entry@;
                    missing.push(entry);
                    assert(views(missing@) =~= before.push(added));
                }
            }
            i = i + 1;
        }
        missing
    }
}

proof fn lemma_missing_position(
    missing: Seq<MissingRemoteView>,
    name: Seq<char>,
    installation: InstallationView,
)
    ensures
        ({
            let at = missing_position(missing, name, installation) as int;
            &&& at <= missing.len()
            &&& at < missing.len() ==> missing[at].name == name && missing[at].installation
                == installation
            &&& forall|i: int|
                0 <= i < at ==> !((#[trigger] missing[i]).name == name && missing[i].installation
                    == installation)
        }),
    decreases missing.len(),
{
    if missing.len() > 0 {
        if !(missing[0].name == name && missing[0].installation == installation) {
            let rest = missing.skip(1);
            lemma_missing_position(rest, name, installation);
            let at = missing_position(missing, name, installation) as int;
            assert forall|i: int| 0 <= i < at implies !((#[trigger] missing[i]).name == name
                && missing[i].installation == installation) by {
                if i > 0 {
                    assert(missing[i] == rest[i - 1]);
                }
            }
        }
    }
}

/// True if `app` cannot be installed for want of a remote.
pub open spec fn lacks_remote(
    app: AppEntryView,
    configured: Seq<RemoteView>,
    install_to_user: bool,
) -> bool {
    !app.sideloaded() && !is_configured(
        configured,
        app.origin,
        target_installation(app, install_to_user),
    )
}

/// True if `missing` is the remote that `app` lacks, and names it among those that
/// need it.
pub open spec fn stands_for(
    missing: MissingRemoteView,
    app: AppEntryView,
    install_to_user: bool,
) -> bool {
    &&& missing.name == app.origin
    &&& missing.installation == target_installation(app, install_to_user)
    &&& missing.apps.contains(app.shown_name())
}

/// None of `missing` is configured for the installation it is needed in.
pub open spec fn none_configured(
    missing: Seq<MissingRemoteView>,
    configured: Seq<RemoteView>,
) -> bool {
    forall|k: int|
        0 <= k < missing.len() ==> !is_configured(
            configured,
            (#[trigger] missing[k]).name,
            missing[k].installation,
        )
}

/// No remote is listed twice for the same installation.
pub open spec fn each_once(missing: Seq<MissingRemoteView>) -> bool {
    forall|j: int, k: int|
        0 <= j < k < missing.len() ==> !((#[trigger] missing[j]).name == (
        #[trigger] missing[k]).name && missing[j].installation == missing[k].installation)
}

/// `app` is listed with the remote it lacks.
pub open spec fn is_listed(
    missing: Seq<MissingRemoteView>,
    app: AppEntryView,
    install_to_user: bool,
) -> bool {
    exists|k: int|
        0 <= k < missing.len() && stands_for(#[trigger] missing[k], app, install_to_user)
}

/// One of `apps` lacks the remote `missing`.
pub open spec fn is_lacked(
    missing: MissingRemoteView,
    apps: Seq<AppEntryView>,
    configured: Seq<RemoteView>,
    install_to_user: bool,
) -> bool {
    exists|i: int|
        0 <= i < apps.len() && lacks_remote(#[trigger] apps[i], configured, install_to_user)
            && stands_for(missing, apps[i], install_to_user)
}

/// Considering one more application keeps what is listed, and lists the application
/// if it lacks its remote.
proof fn lemma_missing_step(
    before: Seq<MissingRemoteView>,
    app: AppEntryView,
    manifest: ManifestView,
    configured: Seq<RemoteView>,
    install_to_user: bool,
)
    ensures
        ({
            let after = missing_with(before, app, manifest, configured, install_to_user);
            let installation = target_installation(app, install_to_user);
            &&& before.len() <= after.len() <= before.len() + 1
            &&& after.len() > before.len() ==> {
                &&& lacks_remote(app, configured, install_to_user)
                &&& stands_for(after.last(), app, install_to_user)
                &&& forall|k: int|
                    0 <= k < before.len() ==> !((#[trigger] before[k]).name == app.origin
                        && before[k].installation == installation)
            }
            &&& forall|k: int|
                #![trigger before[k]]
                #![trigger after[k]]
                0 <= k < before.len() ==> after[k].name == before[k].name && after[k].installation
                    == before[k].installation && before[k].apps.is_prefix_of(after[k].apps)
            &&& lacks_remote(app, configured, install_to_user) ==> is_listed(
                after,
                app,
                install_to_user,
            )
        }),
{
    let after = missing_with(before, app, manifest, configured, install_to_user);
    let installation = target_installation(app, install_to_user);
    let at = missing_position(before, app.origin, installation) as int;
    lemma_missing_position(before, app.origin, installation);
    if lacks_remote(app, configured, install_to_user) {
        assert(after[at].apps.last() == app.shown_name());
        assert(stands_for(after[at], app, install_to_user));
    }
}

proof fn lemma_stands_for_longer(
    before: MissingRemoteView,
    after: MissingRemoteView,
    app: AppEntryView,
    install_to_user: bool,
)
    requires
        stands_for(before, app, install_to_user),
        after.name == before.name,
        after.installation == before.installation,
        before.apps.is_prefix_of(after.apps),
    ensures
        stands_for(after, app, install_to_user),
{
    let name = app.shown_name();
    let i = choose|i: int| 0 <= i < before.apps.len() && before.apps[i] == name;
    assert(after.apps.subrange(0, before.apps.len() as int)[i] == after.apps[i]);
}

/// The missing remotes are just those that applications lack: none is configured for
/// the installation it is needed in, none is listed twice, and every application
/// that lacks one is listed with it.
pub proof fn lemma_missing_remotes(
    manifest: ManifestView,
    n: nat,
    configured: Seq<RemoteView>,
    install_to_user: bool,
)
    requires
        n <= manifest.apps.len(),
    ensures
        ({
            let missing = missing_among(manifest, n, configured, install_to_user);
            let apps = manifest.apps.take(n as int);
            &&& none_configured(missing, configured)
            &&& each_once(missing)
            &&& forall|i: int|
                0 <= i < n && lacks_remote(#[trigger] apps[i], configured, install_to_user)
                    ==> is_listed(missing, apps[i], install_to_user)
            &&& forall|k: int|
                0 <= k < missing.len() ==> is_lacked(
                    #[trigger] missing[k],
                    apps,
                    configured,
                    install_to_user,
                )
        }),
    decreases n,
{
    if n > 0 {
        let m = (n - 1) as nat;
        lemma_missing_remotes(manifest, m, configured, install_to_user);
        let before = missing_among(manifest, m, configured, install_to_user);
        let after = missing_among(manifest, n, configured, install_to_user);
        let earlier = manifest.apps.take(m as int);
        let apps = manifest.apps.take(n as int);
        let app = manifest.apps[n - 1];
        lemma_missing_step(before, app, manifest, configured, install_to_user);
        assert forall|i: int|
            0 <= i < n && lacks_remote(
                #[trigger] apps[i],
                configured,
                install_to_user,
            ) implies is_listed(after, apps[i], install_to_user) by {
            if i < m {
                assert(earlier[i] == apps[i]);
                let k = choose|k: int|
                    0 <= k < before.len() && stands_for(
                        #[trigger] before[k],
                        earlier[i],
                        install_to_user,
                    );
                lemma_stands_for_longer(before[k], after[k], apps[i], install_to_user);
            }
        }
        assert forall|k: int| 0 <= k < after.len() implies is_lacked(
            #[trigger] after[k],
            apps,
            configured,
            install_to_user,
        ) by {
            if k < before.len() {
                assert(is_lacked(before[k], earlier, configured, install_to_user));
                let i = choose|i: int|
                    0 <= i < earlier.len() && lacks_remote(
                        #[trigger] earlier[i],
                        configured,
                        install_to_user,
                    ) && stands_for(before[k], earlier[i], install_to_user);
                assert(apps[i] == earlier[i]);
                lemma_stands_for_longer(before[k], after[k], apps[i], install_to_user);
            } else {
                assert(apps[n - 1] == app);
            }
        }
    }
}

/// Considering one more application adds its name to the remote it lacks, and to no
/// other, and leaves what is known of the remotes as it is.
proof fn lemma_missing_step_keeps(
    before: Seq<MissingRemoteView>,
    app: AppEntryView,
    manifest: ManifestView,
    configured: Seq<RemoteView>,
    install_to_user: bool,
)
    ensures
        ({
            let after = missing_with(before, app, manifest, configured, install_to_user);
            &&& forall|k: int|
                0 <= k < before.len() ==> {
                    let old_entry = #[trigger] before[k];
                    let entry = after[k];
                    &&& entry.url == old_entry.url
                    &&& entry.title == old_entry.title
                    &&& entry.apps == old_entry.apps || {
                        &&& entry.apps == old_entry.apps.push(app.shown_name())
                        &&& lacks_remote(app, configured, install_to_user)
                        &&& stands_for(entry, app, install_to_user)
                    }
                }
            &&& after.len() > before.len() ==> after.last().apps == seq![app.shown_name()]
        }),
{
    let after = missing_with(before, app, manifest, configured, install_to_user);
    let installation = target_installation(app, install_to_user);
    let at = missing_position(before, app.origin, installation) as int;
    lemma_missing_position(before, app.origin, installation);
    if lacks_remote(app, configured, install_to_user) && at < before.len() {
        assert(after[at].apps.last() == app.shown_name());
    }
}

/// What is told of each missing remote is what the archive records of it: the URL and
/// the title of the first remote recorded under its name, for whichever installation
/// that was. Only of a remote that is not recorded at all there is no URL, and the
/// name stands for the title.
pub proof fn lemma_missing_remotes_are_told_as_recorded(
    manifest: ManifestView,
    n: nat,
    configured: Seq<RemoteView>,
    install_to_user: bool,
    k: int,
    i: int,
)
    requires
        n <= manifest.apps.len(),
        0 <= k < missing_among(manifest, n, configured, install_to_user).len(),
    ensures
        ({
            let missing = missing_among(manifest, n, configured, install_to_user)[k];
            let recorded = manifest.remotes;
            &&& 0 <= i < recorded.len() && recorded[i].name == missing.name && (forall|j: int|
                0 <= j < i ==> (#[trigger] recorded[j]).name != missing.name) ==> {
                &&& missing.url == recorded[i].url
                &&& recorded[i].title.len() > 0 ==> missing.title == recorded[i].title
                &&& recorded[i].title.len() == 0 ==> missing.title == missing.name
            }
            &&& (forall|j: int|
                0 <= j < recorded.len() ==> (#[trigger] recorded[j]).name != missing.name) ==> {
                &&& missing.url.len() == 0
                &&& missing.title == missing.name
            }
        }),
    decreases n,
{
    if n > 0 {
        let m = (n - 1) as nat;
        let before = missing_among(manifest, m, configured, install_to_user);
        let after = missing_among(manifest, n, configured, install_to_user);
        let app = manifest.apps[n - 1];
        lemma_missing_step(before, app, manifest, configured, install_to_user);
        if k < before.len() {
            lemma_missing_remotes_are_told_as_recorded(
                manifest,
                m,
                configured,
                install_to_user,
                k,
                i,
            );
            lemma_missing_step_keeps(before, app, manifest, configured, install_to_user);
            assert(after[k].name == before[k].name);
            assert(after[k].url == before[k].url && after[k].title == before[k].title);
        } else {
            lemma_first_remote(manifest.remotes, app.origin);
            assert(after[k] == after.last());
        }
    }
}

/// A remote is missing if and only if an application that came from it is to go into
/// an installation for which no remote of that name is configured: its own, or the
/// user's if all go there. It is listed for that installation, with the names of just
/// those applications.
pub proof fn lemma_missing_remotes_are_those_lacked(
    manifest: ManifestView,
    configured: Seq<RemoteView>,
    install_to_user: bool,
    app: AppEntryView,
)
    requires
        manifest.apps.contains(app),
    ensures
        ({
            let missing = missing_among(
                manifest,
                manifest.apps.len(),
                configured,
                install_to_user,
            );
            let target = if install_to_user {
                InstallationView::User
            } else {
                app.installation
            };
            let shown = if app.name.len() == 0 {
                app.id
            } else {
                app.name
            };
            let there = exists|i: int|
                0 <= i < configured.len() && (#[trigger] configured[i]).name == app.origin
                    && configured[i].installation == target;
            &&& app.origin.len() > 0 && !there ==> exists|k: int|
                0 <= k < missing.len() && (#[trigger] missing[k]).name == app.origin
                    && missing[k].installation == target && missing[k].apps.contains(shown)
            &&& app.origin.len() == 0 || there ==> forall|k: int|
                0 <= k < missing.len() ==> !((#[trigger] missing[k]).name == app.origin
                    && missing[k].installation == target)
        }),
{
    let n = manifest.apps.len();
    let missing = missing_among(manifest, n, configured, install_to_user);
    lemma_missing_remotes(manifest, n, configured, install_to_user);
    let apps = manifest.apps.take(n as int);
    assert(apps =~= manifest.apps);
    let at = choose|at: int| 0 <= at < apps.len() && apps[at] == app;
    let target = target_installation(app, install_to_user);
    if lacks_remote(app, configured, install_to_user) {
        assert(is_listed(missing, apps[at], install_to_user));
        let k = choose|k: int|
            0 <= k < missing.len() && stands_for(#[trigger] missing[k], app, install_to_user);
        assert(missing[k].name == app.origin);
    } else {
        assert forall|k: int| 0 <= k < missing.len() implies !((#[trigger] missing[k]).name
            == app.origin && missing[k].installation == target) by {
            assert(is_lacked(missing[k], apps, configured, install_to_user));
        }
    }
}

/// Each name listed with a missing remote is that of an application that lacks it.
pub proof fn lemma_only_those_in_need_are_named(
    manifest: ManifestView,
    n: nat,
    configured: Seq<RemoteView>,
    install_to_user: bool,
    k: int,
    a: int,
)
    requires
        n <= manifest.apps.len(),
        0 <= k < missing_among(manifest, n, configured, install_to_user).len(),
        0 <= a < missing_among(manifest, n, configured, install_to_user)[k].apps.len(),
    ensures
        ({
            let entry = missing_among(manifest, n, configured, install_to_user)[k];
            exists|i: int|
                0 <= i < n && {
                    let app = #[trigger] manifest.apps[i];
                    &&& app.origin == entry.name
                    &&& app.origin.len() > 0
                    &&& install_to_user ==> entry.installation == InstallationView::User
                    &&& !install_to_user ==> entry.installation == app.installation
                    &&& app.name.len() > 0 ==> entry.apps[a] == app.name
                    &&& app.name.len() == 0 ==> entry.apps[a] == app.id
                }
        }),
    decreases n,
{
    if n > 0 {
        let m = (n - 1) as nat;
        let before = missing_among(manifest, m, configured, install_to_user);
        let after = missing_among(manifest, n, configured, install_to_user);
        let app = manifest.apps[n - 1];
        lemma_missing_step(before, app, manifest, configured, install_to_user);
        lemma_missing_step_keeps(before, app, manifest, configured, install_to_user);
        if k < before.len() {
            assert(before[k].name == after[k].name);
            if a < before[k].apps.len() {
                lemma_only_those_in_need_are_named(
                    manifest,
                    m,
                    configured,
                    install_to_user,
                    k,
                    a,
                );
                assert(after[k].apps[a] == before[k].apps[a]);
            } else {
                assert(manifest.apps[n - 1] == app);
            }
        } else {
            assert(manifest.apps[n - 1] == app);
        }
    }
}

// ----------------------------------------------------- requests and reports

/// What to do when an application already has data on this system.
#[derive(Debug, Clone, Copy, PartialEq, Eq, Structural)]
pub enum ConflictChoice {
    /// Delete the existing data directory, then restore the archived one.
    Replace,
    /// Leave the existing data alone and restore nothing for this application.
    Skip,
}

impl Default for ConflictChoice {
    fn default() -> (out: Self)
        ensures
            out == ConflictChoice::Skip,
    {
        ConflictChoice::Skip
    }
}

/// One application the user chose to restore.
#[derive(Debug, Clone, Copy)]
pub struct RestoreSelection {
    /// Index into `manifest.apps`.
    pub index: usize,
    pub install: bool,
    pub restore_data: bool,
    pub on_conflict: ConflictChoice,
}

/// Everything needed to run a restore.
#[derive(Debug, Clone)]
pub struct RestoreRequest {
    pub selections: Vec<RestoreSelection>,
    /// Install everything into the user installation regardless of where it came
    /// from. Useful when the system installation is not writable.
    pub install_to_user: bool,
    /// Remotes the user agreed to create before restoring.
    pub remotes_to_add: Vec<MissingRemote>,
}

/// Progress messages sent to the UI while a restore runs.
#[derive(Debug, Clone)]
#[allow(inconsistent_fields)]
pub enum RestoreProgress {
    Verifying { done: u64, total: u64 },
    AddingRemote { name: String },
    Installing { app: String, index: usize, total: usize },
    /// A line of output from `flatpak install`.
    InstallOutput { line: String },
    ExtractingApp { app: String },
    Bytes { done: u64, total: u64 },
    Issue(Issue),
}

#[allow(inconsistent_fields)]
pub enum RestoreProgressView {
    Verifying { done: u64, total: u64 },
    AddingRemote { name: Seq<char> },
    Installing { app: Seq<char>, index: int, total: int },
    InstallOutput { line: Seq<char> },
    ExtractingApp { app: Seq<char> },
    Bytes { done: u64, total: u64 },
    Issue(IssueView),
}

impl View for RestoreProgress {
    type V = RestoreProgressView;

    open spec fn view(&self) -> RestoreProgressView {
        match self {
            RestoreProgress::Verifying { done, total } => RestoreProgressView::Verifying {
                done: *done,
                total: *total,
            },
            RestoreProgress::AddingRemote { name } => RestoreProgressView::AddingRemote {
                name: name@,
            },
            RestoreProgress::Installing { app, index, total } => RestoreProgressView::Installing {
                app: app@,
                index: *index as int,
                total: *total as int,
            },
            RestoreProgress::InstallOutput { line } => RestoreProgressView::InstallOutput {
                line: line@,
            },
            RestoreProgress::ExtractingApp { app } => RestoreProgressView::ExtractingApp {
                app: app@,
            },
            RestoreProgress::Bytes { done, total } => RestoreProgressView::Bytes {
                done: *done,
                total: *total,
            },
            RestoreProgress::Issue(issue) => RestoreProgressView::Issue(issue@),
        }
    }
}

/// Outcome of a completed restore.
#[derive(Debug, Clone)]
pub struct RestoreReport {
    pub installed: Vec<String>,
    pub data_restored: Vec<String>,
    pub issues: Vec<Issue>,
    /// True when the user cancelled after data extraction had begun, so some
    /// application data may be incomplete.
    pub interrupted_during_data: bool,
}

pub struct RestoreReportView {
    pub installed: Seq<Seq<char>>,
    pub data_restored: Seq<Seq<char>>,
    pub issues: Seq<IssueView>,
    pub interrupted_during_data: bool,
}

impl View for RestoreReport {
    type V = RestoreReportView;

    open spec fn view(&self) -> RestoreReportView {
        RestoreReportView {
            installed: views(self.installed@),
            data_restored: views(self.data_restored@),
            issues: views(self.issues@),
            interrupted_during_data: self.interrupted_during_data,
        }
    }
}

/// A report of nothing.
pub open spec fn empty_report() -> RestoreReportView {
    RestoreReportView {
        installed: Seq::empty(),
        data_restored: Seq::empty(),
        issues: Seq::empty(),
        interrupted_during_data: false,
    }
}

impl Default for RestoreReport {
    fn default() -> (out: Self)
        ensures
            out@ == empty_report(),
    {
        let out = RestoreReport {
            installed: Vec::new(),
            data_restored: Vec::new(),
            issues: Vec::new(),
            interrupted_during_data: false,
        };
        assert(out@.installed =~= Seq::<Seq<char>>::empty());
        assert(out@.data_restored =~= Seq::<Seq<char>>::empty());
        assert(out@.issues =~= Seq::<IssueView>::empty());
        out
    }
}

impl RestoreReport {
    pub fn has_problems(&self) -> (yes: bool)
        ensures
            yes <==> self@.issues.len() > 0 || self@.interrupted_during_data,
    {
        self.issues.len() > 0 || self.interrupted_during_data
    }
}

// --------------------------------------------------------------------- laws

/// A file is taken for an archive only if it is just as long as its header says:
/// the header, the manifest, the payload and the trailer, and nothing else. What is
/// shorter was cut off, what is longer is damaged, and what does not begin like an
/// archive is none.
pub proof fn lemma_archives_have_their_length(
    path: Seq<u8>,
    file_size: nat,
    head: Seq<u8>,
    tail: Seq<u8>,
)
    requires
        head.len() == 32,
        tail.len() == 40,
    ensures
        frame_of(path, file_size, head, tail) matches Ok((header, digest)) ==> {
            &&& file_size == 32 + header.manifest_len + header.payload_len + 40
            &&& header_of(head) == Ok::<Header, ArchiveErrorView>(header)
            &&& digest == tail.subrange(0, 32)
            &&& trailer_of(tail) is Ok
        },
        file_size >= 72 && header_of(head) is Ok && trailer_of(tail) is Ok && file_size == 32
            + header_of(head)->Ok_0.manifest_len + header_of(head)->Ok_0.payload_len + 40
            ==> frame_of(path, file_size, head, tail) is Ok,
        file_size == 0 ==> frame_of(path, file_size, head, tail) == Err::<
            (Header, Seq<u8>),
            ArchiveErrorView,
        >(ArchiveErrorView::NotAFlatbakArchive(path)),
        0 < file_size < 72 ==> frame_of(path, file_size, head, tail) == Err::<
            (Header, Seq<u8>),
            ArchiveErrorView,
        >(ArchiveErrorView::Truncated),
        file_size >= 72 && head.subrange(0, 8) != seq![
            70u8,
            76u8,
            65u8,
            84u8,
            66u8,
            65u8,
            75u8,
            26u8,
        ] ==> frame_of(path, file_size, head, tail) == Err::<(Header, Seq<u8>), ArchiveErrorView>(
            ArchiveErrorView::NotAFlatbakArchive(path),
        ),
        file_size >= 72 && header_of(head) is Ok && file_size < 32
            + header_of(head)->Ok_0.manifest_len + header_of(head)->Ok_0.payload_len + 40
            ==> frame_of(path, file_size, head, tail) == Err::<
            (Header, Seq<u8>),
            ArchiveErrorView,
        >(ArchiveErrorView::Truncated),
        file_size >= 72 && header_of(head) is Ok && file_size > 32
            + header_of(head)->Ok_0.manifest_len + header_of(head)->Ok_0.payload_len + 40
            ==> frame_of(path, file_size, head, tail) is Err && frame_of(
            path,
            file_size,
            head,
            tail,
        )->Err_0 is Corrupt,
{
    assert(MAGIC@ =~= seq![70u8, 76u8, 65u8, 84u8, 66u8, 65u8, 75u8, 26u8]);
}

/// An archive that says how many applications it holds has to hold as many; apart
/// from that, what is a sound manifest is opened as it is.
pub proof fn lemma_archives_hold_what_they_declare(
    version: Result<u32, Seq<char>>,
    parsed: Result<ManifestView, Seq<char>>,
)
    ensures
        open_outcome(version, parsed) matches Ok(manifest) ==> {
            &&& parsed == Ok::<ManifestView, Seq<char>>(manifest)
            &&& manifest.flatbak.app_count == 0 || manifest.flatbak.app_count
                == manifest.apps.len()
        },
        manifest_outcome(version, parsed) matches Ok(manifest) ==> (open_outcome(
            version,
            parsed,
        ) is Ok <==> manifest.flatbak.app_count == 0 || manifest.flatbak.app_count
            == manifest.apps.len()),
        manifest_outcome(version, parsed) matches Err(error) ==> open_outcome(version, parsed)
            == Err::<ManifestView, ArchiveErrorView>(error),
{
}

/// No remote is listed twice as missing from one installation, and none that is
/// configured for it is listed at all.
pub proof fn lemma_missing_remotes_are_listed_once(
    manifest: ManifestView,
    configured: Seq<RemoteView>,
    install_to_user: bool,
    j: int,
    k: int,
)
    requires
        0 <= j < k < missing_among(
            manifest,
            manifest.apps.len(),
            configured,
            install_to_user,
        ).len(),
    ensures
        ({
            let missing = missing_among(
                manifest,
                manifest.apps.len(),
                configured,
                install_to_user,
            );
            missing[j].name != missing[k].name || missing[j].installation
                != missing[k].installation
        }),
{
    lemma_missing_remotes(manifest, manifest.apps.len(), configured, install_to_user);
}

/// What [`Backup::missing_remotes`] lists has the URL of the first remote that the
/// manifest records under that name, for whichever installation, and goes into the
/// installation of an application that came from it, or into the user's if all go there.
pub proof fn lemma_listed_remotes_can_be_added(
    backup: &Backup,
    configured: &Vec<Remote>,
    install_to_user: bool,
    out: Vec<MissingRemote>,
    k: int,
    i: int,
)
    requires
        call_ensures(Backup::missing_remotes, (backup, configured, install_to_user), out),
        0 <= k < out@.len(),
        0 <= i < backup.manifest.remotes@.len(),
        backup.manifest.remotes@[i].name@ == out@[k].name@,
        forall|j: int|
            0 <= j < i ==> (#[trigger] backup.manifest.remotes@[j]).name@ != out@[k].name@,
    ensures
        out@[k].url@ == backup.manifest.remotes@[i].url@,
        install_to_user ==> out@[k].installation@ == InstallationView::User,
        !install_to_user ==> exists|a: int|
            0 <= a < backup.manifest.apps@.len() && (
            #[trigger] backup.manifest.apps@[a]).installation@ == out@[k].installation@
                && backup.manifest.apps@[a].origin@ == out@[k].name@,
{
    let manifest = backup.manifest@;
    let known = views(configured@);
    let n = manifest.apps.len();
    let missing = missing_among(manifest, n, known, install_to_user);
    assert(missing[k] == out@[k]@);
    assert(manifest.remotes[i] == backup.manifest.remotes@[i]@);
    assert forall|j: int| 0 <= j < i implies (#[trigger] manifest.remotes[j]).name
        != missing[k].name by {
        assert(manifest.remotes[j] == backup.manifest.remotes@[j]@);
    }
    lemma_missing_remotes_are_told_as_recorded(manifest, n, known, install_to_user, k, i);
    lemma_missing_remotes(manifest, n, known, install_to_user);
    let apps = manifest.apps.take(n as int);
    assert(apps =~= manifest.apps);
    assert(is_lacked(missing[k], apps, known, install_to_user));
    let a = choose|a: int|
        0 <= a < apps.len() && lacks_remote(#[trigger] apps[a], known, install_to_user)
            && stands_for(missing[k], apps[a], install_to_user);
    assert(apps[a] == backup.manifest.apps@[a]@);
    assert(backup.manifest.apps@[a].origin@ == out@[k].name@);
}

} // verus!
