//! Running a restore: what to do next, given what came of what was done.
//!
//! [`Restore`] decides; whoever drives it does what it asks for, on the file
//! system and with `flatpak`, and hands back what came of it.

use vstd::prelude::*;
use crate::backup::container::sha256;
use crate::backup::manifest::{AppEntry, AppEntryView, Manifest, ManifestView};
use crate::backup::reader::{
    empty_report, target_installation, Backup, ConflictChoice, MissingRemoteView, PayloadCheck,
    RestoreProgress, RestoreProgressView, RestoreReport, RestoreReportView, RestoreRequest,
    RestoreSelection,
};
use crate::error::{
    failure_text, from_cancellation, is_cancellation, ArchiveErrorView, Cancelled, Failure,
    FailureView, Issue, IssueView,
};
use crate::flatpak::model::{Installation, InstallationView};
use crate::text::{
    cat2, cat3, cat5, chars_of, lemma_split_piece, lemma_split_whole, split, views,
};
use crate::util::{all_id_chars, is_id_char, is_valid_app_id, valid_app_id};

verus! {

// --------------------------------------------------------------- installing

/// A value safe to pass as a `flatpak` argument and to embed in a ref.
pub open spec fn safe_token(value: Seq<char>) -> bool {
    &&& 0 < value.len() <= 128
    &&& value[0] != '-'
    &&& forall|i: int| 0 <= i < value.len() ==> is_id_char(#[trigger] value[i])
}

/// True for a value safe to pass as a `flatpak` argument and to embed in a ref.
///
/// Arguments are passed without a shell, so the concern is not injection but a
/// value that would be read as an option or that would break the ref's shape.
pub fn is_safe_token(value: &str) -> (yes: bool)
    ensures
        yes == safe_token(value@),
{
    let chars = chars_of(value);
    if chars.len() == 0 || chars.len() > 128 || chars[0] == '-' {
        return false;
    }
    all_id_chars(&chars)
}

/// What to install from where.
#[derive(Debug)]
pub struct InstallPlan {
    pub origin: String,
    pub reference: String,
    pub installation: Installation,
}

pub struct InstallPlanView {
    pub origin: Seq<char>,
    pub reference: Seq<char>,
    pub installation: InstallationView,
}

impl View for InstallPlan {
    type V = InstallPlanView;

    open spec fn view(&self) -> InstallPlanView {
        InstallPlanView {
            origin: self.origin@,
            reference: self.reference@,
            installation: self.installation@,
        }
    }
}

/// The ref of an application.
pub open spec fn app_ref(id: Seq<char>, arch: Seq<char>, branch: Seq<char>) -> Seq<char> {
    "app/"@ + id + "/"@ + arch + "/"@ + branch
}

/// How to reinstall `app`, or why it cannot be.
pub open spec fn install_plan_of(app: AppEntryView, install_to_user: bool) -> Result<
    InstallPlanView,
    Seq<char>,
> {
    if app.sideloaded() {
        Err("no remote was recorded, so it must be reinstalled by hand"@)
    } else if !valid_app_id(app.id) {
        Err("the archive records an invalid application ID"@)
    } else if !safe_token(app.arch) {
        Err("the archive records an invalid architecture"@)
    } else if !safe_token(app.branch) {
        Err("the archive records an invalid branch"@)
    } else if !safe_token(app.origin) {
        Err("the archive records an invalid remote"@)
    } else {
        Ok(
            InstallPlanView {
                origin: app.origin,
                reference: app_ref(app.id, app.arch, app.branch),
                installation: target_installation(app, install_to_user),
            },
        )
    }
}

/// Plans the reinstallation of one application from its remote.
///
/// The ref is rebuilt from validated fields rather than trusting the stored
/// string: it comes from a file that may not have been written by us.
pub fn install_one(entry: &AppEntry, install_to_user: bool) -> (out: Result<InstallPlan, String>)
    ensures
        out matches Ok(plan) ==> {
            &&& plan.origin@ == entry.origin@
            &&& install_to_user ==> plan.installation@ == InstallationView::User
            &&& !install_to_user ==> plan.installation@ == entry.installation@
        },
        match out {
            Ok(plan) => install_plan_of(entry@, install_to_user) == Ok::<
                InstallPlanView,
                Seq<char>,
            >(plan@),
            Err(reason) => install_plan_of(entry@, install_to_user) == Err::<
                InstallPlanView,
                Seq<char>,
            >(reason@),
        },
{
    if entry.is_sideloaded() {
        return Err("no remote was recorded, so it must be reinstalled by hand".to_owned());
    }
    if !is_valid_app_id(&entry.id) {
        return Err("the archive records an invalid application ID".to_owned());
    }
    if !is_safe_token(&entry.arch) {
        return Err("the archive records an invalid architecture".to_owned());
    }
    if !is_safe_token(&entry.branch) {
        return Err("the archive records an invalid branch".to_owned());
    }
    if !is_safe_token(&entry.origin) {
        return Err("the archive records an invalid remote".to_owned());
    }
    let start = cat5("app/", &entry.id, "/", &entry.arch, "/");
    let reference = cat2(&start, &entry.branch);
    let installation = if install_to_user {
        Installation::User
    } else {
        entry.installation.clone()
    };
    Ok(InstallPlan { origin: entry.origin.clone(), reference, installation })
}

/// Whatever an archive records, the ref that is installed has the four parts it
/// should have, and neither it nor the remote can be read as an option.
pub proof fn lemma_install_arguments_keep_their_shape(app: AppEntryView, install_to_user: bool)
    requires
        install_plan_of(app, install_to_user) is Ok,
    ensures
        ({
            let plan = install_plan_of(app, install_to_user)->Ok_0;
            &&& split(plan.reference, '/') == seq!["app"@, app.id, app.arch, app.branch]
            &&& plan.origin[0] != '-'
            &&& plan.reference[0] != '-'
        }),
{
    reveal_strlit("app/");
    reveal_strlit("app");
    reveal_strlit("/");
    let app_text = "app"@;
    assert forall|i: int| 0 <= i < app_text.len() implies #[trigger] app_text[i] != '/' by {}
    assert forall|i: int| 0 <= i < app.id.len() implies #[trigger] app.id[i] != '/' by {
        assert(is_id_char(app.id[i]));
    }
    assert forall|i: int| 0 <= i < app.arch.len() implies #[trigger] app.arch[i] != '/' by {
        assert(is_id_char(app.arch[i]));
    }
    assert forall|i: int| 0 <= i < app.branch.len() implies #[trigger] app.branch[i] != '/' by {
        assert(is_id_char(app.branch[i]));
    }
    let a = app_text;
    let b = a.push('/') + app.id;
    let c = b.push('/') + app.arch;
    let d = c.push('/') + app.branch;
    lemma_split_whole(a, '/');
    lemma_split_piece(a, app.id, '/');
    lemma_split_piece(b, app.arch, '/');
    lemma_split_piece(c, app.branch, '/');
    let whole = app_ref(app.id, app.arch, app.branch);
    assert(whole =~= d);
    assert(split(d, '/') =~= seq![app_text, app.id, app.arch, app.branch]);
    assert(whole[0] == 'a');
}

/// An application goes back where it was: it is installed from the remote it came
/// from, into the installation it was in, or into the user's if all go there.
pub proof fn lemma_applications_go_back(app: AppEntryView, install_to_user: bool)
    ensures
        install_plan_of(app, install_to_user) matches Ok(plan) ==> {
            &&& plan.origin == app.origin
            &&& install_to_user ==> plan.installation == InstallationView::User
            &&& !install_to_user ==> plan.installation == app.installation
        },
        (install_plan_of(app, true) is Ok) == (install_plan_of(app, false) is Ok),
{
}

/// A value is safe to hand to `flatpak` if it is not empty, at most 128 characters
/// long, made of ASCII letters, digits and `.`, `_`, `-`, and not read as an option.
pub proof fn lemma_safe_tokens(value: Seq<char>)
    ensures
        safe_token(value) <==> {
            &&& 0 < value.len() <= 128
            &&& value[0] != '-'
            &&& forall|i: int|
                0 <= i < value.len() ==> {
                    ||| 'a' <= #[trigger] value[i] <= 'z'
                    ||| 'A' <= value[i] <= 'Z'
                    ||| '0' <= value[i] <= '9'
                    ||| value[i] == '.'
                    ||| value[i] == '_'
                    ||| value[i] == '-'
                }
        },
{
    if safe_token(value) {
        assert forall|i: int| 0 <= i < value.len() implies {
            ||| 'a' <= #[trigger] value[i] <= 'z'
            ||| 'A' <= value[i] <= 'Z'
            ||| '0' <= value[i] <= '9'
            ||| value[i] == '.'
            ||| value[i] == '_'
            ||| value[i] == '-'
        } by {
            assert(is_id_char(value[i]));
        }
    }
}

/// An application can be reinstalled if and only if its ID is valid, a remote was
/// recorded for it, and its architecture, branch and remote can be handed on. Else it
/// is told what is wrong, the remote that is not there first.
pub proof fn lemma_when_applications_can_be_reinstalled(app: AppEntryView, install_to_user: bool)
    ensures
        install_plan_of(app, install_to_user) is Ok <==> valid_app_id(app.id) && safe_token(
            app.arch,
        ) && safe_token(app.branch) && safe_token(app.origin),
        app.origin.len() == 0 ==> install_plan_of(app, install_to_user) == Err::<
            InstallPlanView,
            Seq<char>,
        >("no remote was recorded, so it must be reinstalled by hand"@),
{
}

// -------------------------------------------------------------- the machine

/// How far a restore has come.
#[derive(Debug, Clone, Copy, PartialEq, Eq, Structural)]
pub enum Phase {
    /// Proving that the archive is intact, before anything is changed.
    Verify,
    /// Adding the remotes the user asked for.
    Remotes,
    /// Reinstalling applications.
    Install,
    /// Going through the data to restore.
    Data,
    /// Finding out whether an application has data already.
    Inspecting,
    /// Removing data that is to be replaced.
    Removing,
    /// Extracting data.
    Extract,
    Done,
}

/// What to do next. Applications are given by their place in the manifest.
#[derive(Debug)]
pub enum RestoreAction {
    /// Nothing; ask again.
    Continue,
    /// Hash the payload and compare it with the trailer.
    VerifyPayload,
    AddRemote { name: String, url: String, installation: Installation },
    Install { app: usize, plan: InstallPlan },
    /// Find out whether this application has data on this system.
    Inspect { app: usize },
    /// Remove this application's data from this system.
    Remove { app: usize },
    /// Extract the data that is wanted.
    Extract,
    Finish,
}

pub enum RestoreActionView {
    Continue,
    VerifyPayload,
    AddRemote { name: Seq<char>, url: Seq<char>, installation: InstallationView },
    Install { app: usize, plan: InstallPlanView },
    Inspect { app: usize },
    Remove { app: usize },
    Extract,
    Finish,
}

impl View for RestoreAction {
    type V = RestoreActionView;

    open spec fn view(&self) -> RestoreActionView {
        match self {
            RestoreAction::Continue => RestoreActionView::Continue,
            RestoreAction::VerifyPayload => RestoreActionView::VerifyPayload,
            RestoreAction::AddRemote { name, url, installation } => RestoreActionView::AddRemote {
                name: name@,
                url: url@,
                installation: installation@,
            },
            RestoreAction::Install { app, plan } => RestoreActionView::Install {
                app: *app,
                plan: plan@,
            },
            RestoreAction::Inspect { app } => RestoreActionView::Inspect { app: *app },
            RestoreAction::Remove { app } => RestoreActionView::Remove { app: *app },
            RestoreAction::Extract => RestoreActionView::Extract,
            RestoreAction::Finish => RestoreActionView::Finish,
        }
    }
}

/// A restore in progress.
#[derive(Debug)]
pub struct Restore {
    phase: Phase,
    index: usize,
    position: usize,
    wanted: Vec<usize>,
    report: RestoreReport,
}

pub struct RestoreView {
    pub phase: Phase,
    /// The next remote or selection to look at.
    pub index: usize,
    /// How many of the installations were looked at.
    pub position: usize,
    /// The applications whose data is to be extracted.
    pub wanted: Seq<usize>,
    pub report: RestoreReportView,
}

impl View for Restore {
    type V = RestoreView;

    closed spec fn view(&self) -> RestoreView {
        RestoreView {
            phase: self.phase,
            index: self.index,
            position: self.position,
            wanted: self.wanted@,
            report: self.report@,
        }
    }
}

/// What a request asks for.
pub struct RequestView {
    pub selections: Seq<RestoreSelection>,
    pub install_to_user: bool,
    pub remotes: Seq<MissingRemoteView>,
}

impl View for RestoreRequest {
    type V = RequestView;

    open spec fn view(&self) -> RequestView {
        RequestView {
            selections: self.selections@,
            install_to_user: self.install_to_user,
            remotes: views(self.remotes_to_add@),
        }
    }
}

/// How many of `selections` ask for an installation.
pub open spec fn install_count(selections: Seq<RestoreSelection>) -> nat
    decreases selections.len(),
{
    if selections.len() == 0 {
        0
    } else {
        install_count(selections.drop_last()) + if selections.last().install {
            1nat
        } else {
            0
        }
    }
}

pub open spec fn with_issue(state: RestoreView, issue: IssueView) -> RestoreView {
    RestoreView {
        report: RestoreReportView { issues: state.report.issues.push(issue), ..state.report },
        ..state
    }
}

/// True if `selection` asks for data that the archive holds.
pub open spec fn asks_for_data(manifest: ManifestView, selection: RestoreSelection) -> bool {
    &&& selection.restore_data
    &&& selection.index < manifest.apps.len()
    &&& manifest.apps[selection.index as int].data_included
}

/// True if one of `selections` asks for the data of the application at `app`.
pub open spec fn data_asked_for(
    manifest: ManifestView,
    selections: Seq<RestoreSelection>,
    app: usize,
) -> bool {
    exists|i: int|
        0 <= i < selections.len() && (#[trigger] selections[i]).index == app && asks_for_data(
            manifest,
            selections[i],
        )
}

/// What holds of a restore at all times: data is only wanted where it was asked
/// for, and only removed where it is to be replaced.
pub open spec fn sound(state: RestoreView, manifest: ManifestView, request: RequestView) -> bool {
    let selections = request.selections;
    &&& forall|k: int|
        0 <= k < state.wanted.len() ==> data_asked_for(
            manifest,
            selections,
            #[trigger] state.wanted[k],
        )
    &&& state.phase == Phase::Remotes ==> state.index <= request.remotes.len()
    &&& state.phase == Phase::Install ==> state.index <= selections.len() && state.position
        == install_count(selections.take(state.index as int))
    &&& state.phase == Phase::Data ==> state.index <= selections.len()
    &&& (state.phase == Phase::Inspecting || state.phase == Phase::Removing) ==> state.index
        < selections.len() && asks_for_data(manifest, selections[state.index as int])
    &&& state.phase == Phase::Removing ==> selections[state.index as int].on_conflict
        == ConflictChoice::Replace
}

pub open spec fn no_url_text(name: Seq<char>) -> Seq<char> {
    "the remote \u{201c}"@ + name + "\u{201d} has no recorded URL and could not be added"@
}

/// What comes next in a restore: the state after it, what to tell the user, and
/// what to do; or that it was cancelled.
pub open spec fn restore_step(
    state: RestoreView,
    manifest: ManifestView,
    request: RequestView,
    cancelled: bool,
) -> Result<(RestoreView, Seq<RestoreProgressView>, RestoreActionView), FailureView> {
    let quiet = Seq::<RestoreProgressView>::empty();
    let selections = request.selections;
    let onward = RestoreView { index: (state.index + 1) as usize, ..state };
    match state.phase {
        Phase::Verify => Ok((state, quiet, RestoreActionView::VerifyPayload)),
        Phase::Remotes => if state.index >= request.remotes.len() {
            Ok(
                (
                    RestoreView { phase: Phase::Install, index: 0, position: 0, ..state },
                    quiet,
                    RestoreActionView::Continue,
                ),
            )
        } else if cancelled {
            Err(FailureView::Cancelled)
        } else {
            let remote = request.remotes[state.index as int];
            let said = seq![RestoreProgressView::AddingRemote { name: remote.name }];
            if remote.url.len() == 0 {
                Ok(
                    (
                        with_issue(
                            onward,
                            IssueView::Other { message: no_url_text(remote.name) },
                        ),
                        said,
                        RestoreActionView::Continue,
                    ),
                )
            } else {
                Ok(
                    (
                        onward,
                        said,
                        RestoreActionView::AddRemote {
                            name: remote.name,
                            url: remote.url,
                            installation: remote.installation,
                        },
                    ),
                )
            }
        },
        Phase::Install => if state.index >= selections.len() {
            Ok(
                (
                    RestoreView { phase: Phase::Data, index: 0, ..state },
                    quiet,
                    RestoreActionView::Continue,
                ),
            )
        } else {
            let selection = selections[state.index as int];
            let counted = RestoreView { position: (state.position + 1) as usize, ..onward };
            if !selection.install {
                Ok((onward, quiet, RestoreActionView::Continue))
            } else if cancelled {
                Err(FailureView::Cancelled)
            } else if selection.index >= manifest.apps.len() {
                Ok((counted, quiet, RestoreActionView::Continue))
            } else {
                let app = manifest.apps[selection.index as int];
                let said = RestoreProgressView::Installing {
                    app: app.shown_name(),
                    index: state.position as int,
                    total: install_count(selections) as int,
                };
                match install_plan_of(app, request.install_to_user) {
                    Ok(plan) => Ok(
                        (
                            counted,
                            seq![said],
                            RestoreActionView::Install { app: selection.index, plan },
                        ),
                    ),
                    Err(reason) => {
                        let issue = IssueView::InstallFailed {
                            app: app.shown_name(),
                            message: reason,
                        };
                        Ok(
                            (
                                with_issue(counted, issue),
                                seq![said, RestoreProgressView::Issue(issue)],
                                RestoreActionView::Continue,
                            ),
                        )
                    },
                }
            }
        },
        Phase::Data => if state.index >= selections.len() {
            if state.wanted.len() > 0 {
                Ok(
                    (
                        RestoreView { phase: Phase::Extract, ..state },
                        quiet,
                        RestoreActionView::Continue,
                    ),
                )
            } else {
                Ok(
                    (
                        RestoreView { phase: Phase::Done, ..state },
                        quiet,
                        RestoreActionView::Continue,
                    ),
                )
            }
        } else if !asks_for_data(manifest, selections[state.index as int]) {
            Ok((onward, quiet, RestoreActionView::Continue))
        } else {
            Ok(
                (
                    RestoreView { phase: Phase::Inspecting, ..state },
                    quiet,
                    RestoreActionView::Continue,
                ),
            )
        },
        Phase::Inspecting => Ok(
            (
                state,
                quiet,
                RestoreActionView::Inspect { app: selections[state.index as int].index },
            ),
        ),
        Phase::Removing => Ok(
            (
                state,
                quiet,
                RestoreActionView::Remove { app: selections[state.index as int].index },
            ),
        ),
        Phase::Extract => Ok((state, quiet, RestoreActionView::Extract)),
        Phase::Done => Ok((state, quiet, RestoreActionView::Finish)),
    }
}

/// The state once it is known whether the application at hand has data already.
pub open spec fn after_inspection(
    state: RestoreView,
    manifest: ManifestView,
    request: RequestView,
    present: bool,
) -> RestoreView {
    let selection = request.selections[state.index as int];
    let onward = RestoreView { phase: Phase::Data, index: (state.index + 1) as usize, ..state };
    if !present {
        RestoreView { wanted: state.wanted.push(selection.index), ..onward }
    } else {
        match selection.on_conflict {
            ConflictChoice::Skip => with_issue(
                onward,
                IssueView::DataSkipped {
                    app: manifest.apps[selection.index as int].shown_name(),
                },
            ),
            ConflictChoice::Replace => RestoreView { phase: Phase::Removing, ..state },
        }
    }
}

/// What removing data failed with, if it did.
pub open spec fn removal_error(outcome: Result<(), Failure>) -> Option<FailureView> {
    match outcome {
        Ok(_) => None,
        Err(error) => Some(error@),
    }
}

/// The state once removing the data at hand succeeded, or failed with `error`
/// other than for a cancellation.
pub open spec fn after_removal(
    state: RestoreView,
    manifest: ManifestView,
    request: RequestView,
    error: Option<FailureView>,
) -> RestoreView {
    let selection = request.selections[state.index as int];
    let onward = RestoreView { phase: Phase::Data, index: (state.index + 1) as usize, ..state };
    match error {
        None => RestoreView { wanted: state.wanted.push(selection.index), ..onward },
        Some(failure) => with_issue(
            onward,
            IssueView::DataRestoreFailed {
                app: manifest.apps[selection.index as int].shown_name(),
                message: "existing data could not be removed: "@ + failure_text(failure),
            },
        ),
    }
}

/// The state once the data was extracted: of which applications, and with which
/// issues.
pub open spec fn after_extraction(
    state: RestoreView,
    restored: Seq<Seq<char>>,
    issues: Seq<IssueView>,
) -> RestoreView {
    RestoreView {
        phase: Phase::Done,
        report: RestoreReportView {
            data_restored: state.report.data_restored + restored,
            issues: state.report.issues + issues,
            ..state.report
        },
        ..state
    }
}

/// The issue that was added last, for the user.
pub open spec fn last_issue_told(
    progress: Option<RestoreProgress>,
    before: RestoreView,
    after: RestoreView,
) -> bool {
    match progress {
        Some(message) => {
            &&& after.report.issues.len() == before.report.issues.len() + 1
            &&& message@ == RestoreProgressView::Issue(after.report.issues.last())
        },
        None => after.report.issues == before.report.issues,
    }
}

proof fn lemma_install_count_bound(selections: Seq<RestoreSelection>)
    ensures
        install_count(selections) <= selections.len(),
    decreases selections.len(),
{
    if selections.len() > 0 {
        lemma_install_count_bound(selections.drop_last());
    }
}

fn count_installs(selections: &Vec<RestoreSelection>) -> (count: usize)
    ensures
        count == install_count(selections@),
{
    let mut count: usize = 0;
    let mut i: usize = 0;
    assert(selections@.take(0) =~= Seq::<RestoreSelection>::empty());
    while i < selections.len()
        invariant
            i <= selections@.len(),
            count <= i,
            count == install_count(selections@.take(i as int)),
        decreases selections.len() - i,
    {
        proof {
            assert(selections@.take(i + 1).drop_last() =~= selections@.take(i as int));
            assert(selections@.take(i + 1).last() == selections@[i as int]);
        }
        if selections[i].install {
            count = count + 1;
        }
        i = i + 1;
    }
    assert(selections@.take(selections@.len() as int) =~= selections@);
    count
}

impl Restore {
    /// A restore that has not begun.
    pub fn new() -> (out: Restore)
        ensures
            out@ == (RestoreView {
                phase: Phase::Verify,
                index: 0,
                position: 0,
                wanted: Seq::empty(),
                report: empty_report(),
            }),
            forall|manifest: ManifestView, request: RequestView| #[trigger]
                sound(out@, manifest, request),
    {
        let out = Restore {
            phase: Phase::Verify,
            index: 0,
            position: 0,
            wanted: Vec::new(),
            report: RestoreReport::default(),
        };
        assert(out@.wanted =~= Seq::<usize>::empty());
        out
    }

    fn push_issue(&mut self, issue: Issue)
        ensures
            final(self)@ == with_issue(old(self)@, issue@),
    {
        let ghost before = self.report.issues@;
        let ghost issue_view = issue@;
        self.report.issues.push(issue);
        assert(views(self.report.issues@) =~= views(before).push(issue_view));
    }

    /// What to do next, and what to tell the user before it is done.
    pub fn next(&mut self, manifest: &Manifest, request: &RestoreRequest, cancelled: bool) -> (out:
        Result<(Vec<RestoreProgress>, RestoreAction), Failure>)
        requires
            sound(old(self)@, manifest@, request@),
        ensures
            sound(final(self)@, manifest@, request@),
            match restore_step(old(self)@, manifest@, request@, cancelled) {
                Ok((state, said, action)) => {
                    &&& final(self)@ == state
                    &&& out matches Ok((progress, todo)) && views(progress@) == said && todo@
                        == action
                },
                Err(failure) => {
                    &&& final(self)@ == old(self)@
                    &&& out matches Err(error) && error@ == failure
                },
            },
    {
        let ghost all = request@.selections;
        let mut progress: Vec<RestoreProgress> = Vec::new();
        assert(views(progress@) =~= Seq::<RestoreProgressView>::empty());
        match self.phase {
            Phase::Verify => Ok((progress, RestoreAction::VerifyPayload)),
            Phase::Remotes => {
                if self.index >= request.remotes_to_add.len() {
                    self.phase = Phase::Install;
                    self.index = 0;
                    self.position = 0;
                    assert(all.take(0) =~= Seq::<RestoreSelection>::empty());
                    return Ok((progress, RestoreAction::Continue));
                }
                if cancelled {
                    return Err(Failure::Cancelled(Cancelled));
                }
                let remote = &request.remotes_to_add[self.index];
                assert(request@.remotes[self.index as int] == remote@);
                progress.push(RestoreProgress::AddingRemote { name: remote.name.clone() });
                assert(views(progress@) =~= seq![
                    RestoreProgressView::AddingRemote { name: remote@.name },
                ]);
                self.index = self.index + 1;
                if !remote.can_add() {
                    self.push_issue(
                        Issue::Other {
                            message: cat3(
                                "the remote \u{201c}",
                                &remote.name,
                                "\u{201d} has no recorded URL and could not be added",
                            ),
                        },
                    );
                    return Ok((progress, RestoreAction::Continue));
                }
                Ok(
                    (
                        progress,
                        RestoreAction::AddRemote {
                            name: remote.name.clone(),
                            url: remote.url.clone(),
                            installation: remote.installation.clone(),
                        },
                    ),
                )
            },
            Phase::Install => {
                if self.index >= request.selections.len() {
                    self.phase = Phase::Data;
                    self.index = 0;
                    return Ok((progress, RestoreAction::Continue));
                }
                let selection = request.selections[self.index];
                proof {
                    assert(all.take(self.index + 1).drop_last() =~= all.take(self.index as int));
                    assert(all.take(self.index + 1).last() == selection);
                    lemma_install_count_bound(all.take(self.index as int));
                }
                if !selection.install {
                    self.index = self.index + 1;
                    return Ok((progress, RestoreAction::Continue));
                }
                if cancelled {
                    return Err(Failure::Cancelled(Cancelled));
                }
                let position: usize = self.position;
                self.index = self.index + 1;
                self.position = self.position + 1;
                if selection.index >= manifest.apps.len() {
                    return Ok((progress, RestoreAction::Continue));
                }
                let app = &manifest.apps[selection.index];
                assert(manifest@.apps[selection.index as int] == app@);
                let ghost said = RestoreProgressView::Installing {
                    app: app@.shown_name(),
                    index: position as int,
                    total: install_count(all) as int,
                };
                progress.push(
                    RestoreProgress::Installing {
                        app: app.display_name().to_owned(),
                        index: position,
                        total: count_installs(&request.selections),
                    },
                );
                assert(views(progress@) =~= seq![said]);
                match install_one(app, request.install_to_user) {
                    Ok(plan) => Ok(
                        (progress, RestoreAction::Install { app: selection.index, plan }),
                    ),
                    Err(reason) => {
                        let issue = Issue::InstallFailed {
                            app: app.display_name().to_owned(),
                            message: reason,
                        };
                        let ghost issue_view = issue@;
                        progress.push(RestoreProgress::Issue(issue.clone()));
                        self.push_issue(issue);
                        assert(views(progress@) =~= seq![
                            said,
                            RestoreProgressView::Issue(issue_view),
                        ]);
                        Ok((progress, RestoreAction::Continue))
                    },
                }
            },
            Phase::Data => {
                if self.index >= request.selections.len() {
                    if self.wanted.len() > 0 {
                        self.phase = Phase::Extract;
                    } else {
                        self.phase = Phase::Done;
                    }
                    return Ok((progress, RestoreAction::Continue));
                }
                let selection = request.selections[self.index];
                if selection.restore_data && selection.index < manifest.apps.len()
                    && manifest.apps[selection.index].data_included {
                    assert(manifest@.apps[selection.index as int]
                        == manifest.apps@[selection.index as int]@);
                    self.phase = Phase::Inspecting;
                } else {
                    proof {
                        if selection.index < manifest@.apps.len() {
                            assert(manifest@.apps[selection.index as int]
                                == manifest.apps@[selection.index as int]@);
                        }
                    }
                    self.index = self.index + 1;
                }
                Ok((progress, RestoreAction::Continue))
            },
            Phase::Inspecting => Ok(
                (
                    progress,
                    RestoreAction::Inspect { app: request.selections[self.index].index },
                ),
            ),
            Phase::Removing => Ok(
                (progress, RestoreAction::Remove { app: request.selections[self.index].index }),
            ),
            Phase::Extract => Ok((progress, RestoreAction::Extract)),
            Phase::Done => Ok((progress, RestoreAction::Finish)),
        }
    }

    /// Takes in the whole payload. The restore goes on only if it matches its
    /// checksum.
    pub fn verified(&mut self, check: PayloadCheck, backup: &Backup) -> (out: Result<
        (),
        Failure,
    >)
        requires
            old(self)@.phase == Phase::Verify,
            check.wf(),
            check.content().len() == check.total(),
            check.total() == backup.header.payload_len,
        ensures
            if sha256(check.content())@ == backup.trailer@ {
                &&& final(self)@ == (RestoreView { phase: Phase::Remotes, index: 0, ..old(self)@ })
                &&& out is Ok
            } else {
                &&& final(self)@ == old(self)@
                &&& out matches Err(error) && error@ == FailureView::Archive(
                    ArchiveErrorView::ChecksumMismatch,
                )
            },
            forall|manifest: ManifestView, request: RequestView|
                sound(old(self)@, manifest, request) ==> #[trigger] sound(
                    final(self)@,
                    manifest,
                    request,
                ),
    {
        let outcome = check.finish(&backup.trailer);
        if outcome.is_ok() {
            self.phase = Phase::Remotes;
            self.index = 0;
        }
        outcome
    }

    /// Takes in what came of adding the remote `name`.
    pub fn remote_added(&mut self, name: &str, outcome: Result<(), Failure>)
        ensures
            final(self)@ == match outcome {
                Ok(_) => old(self)@,
                Err(error) => with_issue(
                    old(self)@,
                    IssueView::Other { message: name@ + ": "@ + failure_text(error@) },
                ),
            },
            forall|manifest: ManifestView, request: RequestView|
                sound(old(self)@, manifest, request) ==> #[trigger] sound(
                    final(self)@,
                    manifest,
                    request,
                ),
    {
        if let Err(error) = outcome {
            self.push_issue(Issue::Other { message: cat3(name, ": ", &error.message()) });
        }
    }

    /// Takes in what came of installing `app`. A cancellation ends the restore;
    /// any other failure is noted, and what to tell the user is returned.
    pub fn installed(&mut self, app: &AppEntry, outcome: Result<(), Failure>) -> (out: Result<
        Option<RestoreProgress>,
        Failure,
    >)
        ensures
            match outcome {
                Ok(_) => {
                    &&& final(self)@ == (RestoreView {
                        report: RestoreReportView {
                            installed: old(self)@.report.installed.push(app@.shown_name()),
                            ..old(self)@.report
                        },
                        ..old(self)@
                    })
                    &&& out matches Ok(None)
                },
                Err(error) => if from_cancellation(error@) {
                    &&& final(self)@ == old(self)@
                    &&& out matches Err(failure) && failure@ == error@
                } else {
                    let issue = IssueView::InstallFailed {
                        app: app@.shown_name(),
                        message: failure_text(error@),
                    };
                    &&& final(self)@ == with_issue(old(self)@, issue)
                    &&& out matches Ok(Some(message)) && message@ == RestoreProgressView::Issue(
                        issue,
                    )
                },
            },
            forall|manifest: ManifestView, request: RequestView|
                sound(old(self)@, manifest, request) ==> #[trigger] sound(
                    final(self)@,
                    manifest,
                    request,
                ),
    {
        match outcome {
            Ok(_) => {
                let ghost before = self.report.installed@;
                self.report.installed.push(app.display_name().to_owned());
                assert(views(self.report.installed@) =~= views(before).push(app@.shown_name()));
                Ok(None)
            },
            Err(error) => {
                if is_cancellation(&error) {
                    return Err(error);
                }
                let issue = Issue::InstallFailed {
                    app: app.display_name().to_owned(),
                    message: error.message(),
                };
                let copy = issue.clone();
                self.push_issue(issue);
                Ok(Some(RestoreProgress::Issue(copy)))
            },
        }
    }

    /// Takes in whether the application at hand has data on this system.
    pub fn inspected(&mut self, manifest: &Manifest, request: &RestoreRequest, present: bool) -> (
        progress: Option<RestoreProgress>)
        requires
            sound(old(self)@, manifest@, request@),
            old(self)@.phase == Phase::Inspecting,
        ensures
            sound(final(self)@, manifest@, request@),
            final(self)@ == after_inspection(old(self)@, manifest@, request@, present),
            last_issue_told(progress, old(self)@, final(self)@),
    {
        let selection = request.selections[self.index];
        let app = &manifest.apps[selection.index];
        assert(self.index < request.selections.len());
        assert(manifest@.apps[selection.index as int] == app@);
        if present {
            match selection.on_conflict {
                ConflictChoice::Skip => {
                    let issue = Issue::DataSkipped { app: app.display_name().to_owned() };
                    let copy = issue.clone();
                    self.phase = Phase::Data;
                    self.index = self.index + 1;
                    self.push_issue(issue);
                    return Some(RestoreProgress::Issue(copy));
                },
                ConflictChoice::Replace => {
                    self.phase = Phase::Removing;
                    return None;
                },
            }
        }
        self.want(selection.index, Ghost(manifest@), Ghost(request@));
        None
    }

    /// Notes that the data of the application at `app` is wanted, and goes on.
    fn want(&mut self, app: usize, Ghost(manifest): Ghost<ManifestView>, Ghost(request): Ghost<
        RequestView,
    >)
        requires
            sound(old(self)@, manifest, request),
            old(self)@.phase == Phase::Inspecting || old(self)@.phase == Phase::Removing,
            old(self)@.index < usize::MAX,
            app == request.selections[old(self)@.index as int].index,
        ensures
            sound(final(self)@, manifest, request),
            final(self)@ == (RestoreView {
                phase: Phase::Data,
                index: (old(self)@.index + 1) as usize,
                wanted: old(self)@.wanted.push(app),
                ..old(self)@
            }),
    {
        let ghost before = self@;
        self.phase = Phase::Data;
        self.index = self.index + 1;
        self.wanted.push(app);
        proof {
            let selections = request.selections;
            assert(data_asked_for(manifest, selections, app)) by {
                assert(selections[before.index as int].index == app);
            }
            assert forall|k: int| 0 <= k < self@.wanted.len() implies data_asked_for(
                manifest,
                selections,
                #[trigger] self@.wanted[k],
            ) by {
                if k < before.wanted.len() {
                    assert(self@.wanted[k] == before.wanted[k]);
                }
            }
        }
    }

    /// Takes in what came of removing the data at hand. A cancellation ends the
    /// restore; any other failure is noted, and what to tell the user is returned.
    pub fn removed(
        &mut self,
        manifest: &Manifest,
        request: &RestoreRequest,
        outcome: Result<(), Failure>,
    ) -> (out: Result<Option<RestoreProgress>, Failure>)
        requires
            sound(old(self)@, manifest@, request@),
            old(self)@.phase == Phase::Removing,
        ensures
            sound(final(self)@, manifest@, request@),
            match removal_error(outcome) {
                Some(error) if from_cancellation(error) => {
                    &&& final(self)@ == old(self)@
                    &&& out matches Err(failure) && failure@ == error
                },
                error => {
                    &&& final(self)@ == after_removal(old(self)@, manifest@, request@, error)
                    &&& out matches Ok(progress) && last_issue_told(
                        progress,
                        old(self)@,
                        final(self)@,
                    )
                },
            },
    {
        let selection = request.selections[self.index];
        let app = &manifest.apps[selection.index];
        assert(self.index < request.selections.len());
        assert(manifest@.apps[selection.index as int] == app@);
        match outcome {
            Ok(_) => {
                self.want(selection.index, Ghost(manifest@), Ghost(request@));
                Ok(None)
            },
            Err(error) => {
                if is_cancellation(&error) {
                    return Err(error);
                }
                let issue = Issue::DataRestoreFailed {
                    app: app.display_name().to_owned(),
                    message: cat2("existing data could not be removed: ", &error.message()),
                };
                let copy = issue.clone();
                self.phase = Phase::Data;
                self.index = self.index + 1;
                self.push_issue(issue);
                Ok(Some(RestoreProgress::Issue(copy)))
            },
        }
    }

    /// The applications whose data is to be extracted.
    pub fn wanted(&self) -> (out: &Vec<usize>)
        ensures
            out@ == self@.wanted,
    {
        &self.wanted
    }

    /// Takes in what came of the extraction: the names of the applications whose
    /// data was restored and what went wrong, or why it stopped. A cancellation
    /// leaves data that may be incomplete, which the report notes.
    pub fn extracted(&mut self, outcome: Result<(Vec<String>, Vec<Issue>), Failure>) -> (out:
        Result<(), Failure>)
        requires
            old(self)@.phase == Phase::Extract,
        ensures
            match outcome {
                Ok((restored, issues)) => {
                    &&& final(self)@ == after_extraction(
                        old(self)@,
                        views(restored@),
                        views(issues@),
                    )
                    &&& out is Ok
                },
                Err(error) => {
                    &&& final(self)@ == (RestoreView {
                        report: RestoreReportView {
                            interrupted_during_data: old(self)@.report.interrupted_during_data
                                || from_cancellation(error@),
                            ..old(self)@.report
                        },
                        ..old(self)@
                    })
                    &&& out matches Err(failure) && failure@ == error@
                },
            },
            forall|manifest: ManifestView, request: RequestView|
                sound(old(self)@, manifest, request) ==> #[trigger] sound(
                    final(self)@,
                    manifest,
                    request,
                ),
    {
        match outcome {
            Ok((restored, issues)) => {
                let mut restored = restored;
                let mut issues = issues;
                let ghost names = restored@;
                let ghost problems = issues@;
                let ghost old_names = self.report.data_restored@;
                let ghost old_problems = self.report.issues@;
                self.phase = Phase::Done;
                self.report.data_restored.append(&mut restored);
                self.report.issues.append(&mut issues);
                proof {
                    assert(views(self.report.data_restored@) =~= views(old_names) + views(names));
                    assert(views(self.report.issues@) =~= views(old_problems) + views(problems));
                }
                Ok(())
            },
            Err(error) => {
                if is_cancellation(&error) {
                    self.report.interrupted_during_data = true;
                }
                Err(error)
            },
        }
    }

    /// The report of a restore that is done.
    pub fn finish(self) -> (report: RestoreReport)
        ensures
            report@ == self@.report,
    {
        self.report
    }
}

/// Begins a restore.
pub fn restore() -> (out: Restore)
    ensures
        out@ == (RestoreView {
            phase: Phase::Verify,
            index: 0,
            position: 0,
            wanted: Seq::empty(),
            report: empty_report(),
        }),
        forall|manifest: ManifestView, request: RequestView| #[trigger]
            sound(out@, manifest, request),
{
    Restore::new()
}

/// Before the payload has been found to match its checksum, nothing is asked for
/// but to check it: a damaged archive changes nothing on the system.
pub proof fn lemma_nothing_before_verification(
    state: RestoreView,
    manifest: ManifestView,
    request: RequestView,
    cancelled: bool,
)
    requires
        state.phase == Phase::Verify,
    ensures
        restore_step(state, manifest, request, cancelled) == Ok::<
            (RestoreView, Seq<RestoreProgressView>, RestoreActionView),
            FailureView,
        >((state, Seq::<RestoreProgressView>::empty(), RestoreActionView::VerifyPayload)),
{
}

/// Data is only removed where the user chose to replace it and the archive holds
/// what it is to be replaced with.
pub proof fn lemma_removal_only_on_request(
    state: RestoreView,
    manifest: ManifestView,
    request: RequestView,
    cancelled: bool,
)
    requires
        sound(state, manifest, request),
    ensures
        restore_step(state, manifest, request, cancelled) matches Ok((after, said, action)) ==> (
        action matches RestoreActionView::Remove { app } ==> {
            let selection = request.selections[state.index as int];
            &&& selection.index == app
            &&& selection.on_conflict == ConflictChoice::Replace
            &&& asks_for_data(manifest, selection)
        }),
{
}

/// A cancelled restore adds no remote and installs nothing.
pub proof fn lemma_cancelled_restore_installs_nothing(
    state: RestoreView,
    manifest: ManifestView,
    request: RequestView,
)
    ensures
        restore_step(state, manifest, request, true) matches Ok((after, said, action)) ==> action
            !is AddRemote && action !is Install,
{
}

/// How many more steps a restore can take at most.
pub open spec fn work_left(state: RestoreView, request: RequestView) -> int {
    let selections = request.selections.len() as int;
    let data = 3 * (selections - state.index);
    match state.phase {
        Phase::Verify => request.remotes.len() + 4 * selections + 5,
        Phase::Remotes => request.remotes.len() - state.index + 4 * selections + 4,
        Phase::Install => selections - state.index + 3 * selections + 3,
        Phase::Data => data + 2,
        Phase::Inspecting => data + 1,
        Phase::Removing => data,
        Phase::Extract => 1,
        Phase::Done => 0,
    }
}

/// A restore comes to an end: every step, and every answer to what a step asks for,
/// leaves less to do, until there is nothing left.
pub proof fn lemma_restore_comes_to_an_end(
    state: RestoreView,
    manifest: ManifestView,
    request: RequestView,
    cancelled: bool,
)
    requires
        sound(state, manifest, request),
        request.selections.len() <= usize::MAX,
        request.remotes.len() <= usize::MAX,
    ensures
        work_left(state, request) >= 0,
        restore_step(state, manifest, request, cancelled) matches Ok((after, said, action)) ==> {
            match action {
                RestoreActionView::Finish => work_left(state, request) == 0,
                RestoreActionView::VerifyPayload => after == state && work_left(
                    RestoreView { phase: Phase::Remotes, index: 0, ..state },
                    request,
                ) < work_left(state, request),
                RestoreActionView::Inspect { .. } => after == state && forall|present: bool|
                    work_left(
                        #[trigger] after_inspection(state, manifest, request, present),
                        request,
                    ) < work_left(state, request),
                RestoreActionView::Remove { .. } => after == state && forall|
                    error: Option<FailureView>,
                |
                    work_left(
                        #[trigger] after_removal(state, manifest, request, error),
                        request,
                    ) < work_left(state, request),
                RestoreActionView::Extract => after == state && work_left(
                    RestoreView { phase: Phase::Done, ..state },
                    request,
                ) < work_left(state, request),
                _ => work_left(after, request) < work_left(state, request),
            }
        },
{
}

/// The state once at most `n` steps were taken that ask for nothing.
pub open spec fn advanced(
    state: RestoreView,
    manifest: ManifestView,
    request: RequestView,
    n: nat,
) -> RestoreView
    decreases n,
{
    if n == 0 {
        state
    } else {
        match restore_step(state, manifest, request, false) {
            Ok((after, said, RestoreActionView::Continue)) => advanced(
                after,
                manifest,
                request,
                (n - 1) as nat,
            ),
            _ => state,
        }
    }
}

/// What the next step asks for.
pub open spec fn asked_next(
    state: RestoreView,
    manifest: ManifestView,
    request: RequestView,
) -> RestoreActionView {
    restore_step(state, manifest, request, false)->Ok_0.2
}

/// The state of a restore whose payload matches its checksum.
pub open spec fn payload_sound() -> RestoreView {
    RestoreView {
        phase: Phase::Remotes,
        index: 0,
        position: 0,
        wanted: Seq::empty(),
        report: empty_report(),
    }
}

/// Restoring the data of one application: it is looked at first. Where there is none,
/// or it is to be replaced and could be removed, the archive's is extracted. Where it
/// is to be kept, nothing more is asked for and the report says so.
pub proof fn lemma_data_is_replaced_or_kept(
    manifest: ManifestView,
    request: RequestView,
    selection: RestoreSelection,
)
    requires
        request.selections == seq![selection],
        request.remotes.len() == 0,
        !selection.install,
        asks_for_data(manifest, selection),
    ensures
        ({
            let asked = advanced(payload_sound(), manifest, request, 4);
            let missing = advanced(
                after_inspection(asked, manifest, request, false),
                manifest,
                request,
                1,
            );
            let found = after_inspection(asked, manifest, request, true);
            let app = selection.index;
            &&& asked_next(asked, manifest, request) == RestoreActionView::Inspect { app }
            &&& asked_next(missing, manifest, request) is Extract
            &&& missing.wanted == seq![app]
            &&& missing.report == empty_report()
            &&& match selection.on_conflict {
                ConflictChoice::Skip => {
                    let done = advanced(found, manifest, request, 1);
                    &&& asked_next(done, manifest, request) is Finish
                    &&& done.report == (RestoreReportView {
                        issues: seq![
                            IssueView::DataSkipped {
                                app: manifest.apps[app as int].shown_name(),
                            },
                        ],
                        ..empty_report()
                    })
                },
                ConflictChoice::Replace => {
                    &&& asked_next(found, manifest, request) == RestoreActionView::Remove { app }
                    &&& advanced(
                        after_removal(found, manifest, request, None),
                        manifest,
                        request,
                        1,
                    ) == missing
                },
            }
        }),
{
    reveal_with_fuel(advanced, 5);
    assert(seq![selection][0] == selection);
    let none = Seq::<usize>::empty();
    assert(none.push(selection.index) =~= seq![selection.index]);
    let asked = advanced(payload_sound(), manifest, request, 4);
    assert(asked == (RestoreView { phase: Phase::Inspecting, ..payload_sound() }));
    let kept = IssueView::DataSkipped { app: manifest.apps[selection.index as int].shown_name() };
    assert(empty_report().issues.push(kept) =~= seq![kept]);
}

/// Each remote that was asked for is added, one after the other, as it was asked for:
/// under its name, with its URL, for its installation. One without a URL is reported
/// instead. After the last, and not before, applications are installed.
pub proof fn lemma_remotes_are_added_in_turn(
    state: RestoreView,
    manifest: ManifestView,
    request: RequestView,
)
    requires
        state.phase == Phase::Remotes,
        sound(state, manifest, request),
        request.remotes.len() <= usize::MAX,
    ensures
        restore_step(state, manifest, request, false) is Ok,
        ({
            let (after, said, action) = restore_step(state, manifest, request, false)->Ok_0;
            let at = state.index as int;
            &&& at < request.remotes.len() ==> {
                let remote = request.remotes[at];
                &&& after.phase == Phase::Remotes
                &&& after.index == at + 1
                &&& after.wanted == state.wanted
                &&& said == seq![RestoreProgressView::AddingRemote { name: remote.name }]
                &&& remote.url.len() > 0 ==> {
                    &&& action == (RestoreActionView::AddRemote {
                        name: remote.name,
                        url: remote.url,
                        installation: remote.installation,
                    })
                    &&& after.report == state.report
                }
                &&& remote.url.len() == 0 ==> {
                    &&& action is Continue
                    &&& after.report.installed == state.report.installed
                    &&& after.report.issues == state.report.issues.push(
                        IssueView::Other {
                            message: "the remote \u{201c}"@ + remote.name
                                + "\u{201d} has no recorded URL and could not be added"@,
                        },
                    )
                }
            }
            &&& at == request.remotes.len() ==> {
                &&& action is Continue
                &&& after == (RestoreView { phase: Phase::Install, index: 0, position: 0, ..state })
            }
        }),
{
}

/// Each application that is to be installed is, one after the other, from its own
/// remote and into the installation it was in, or the user's if all go there; or it is
/// reported why it cannot be. Those that are not to be installed are passed over
/// without a word. After the last, and not before, the data is seen to.
pub proof fn lemma_applications_are_installed_in_turn(
    state: RestoreView,
    manifest: ManifestView,
    request: RequestView,
)
    requires
        state.phase == Phase::Install,
        sound(state, manifest, request),
        request.selections.len() <= usize::MAX,
    ensures
        restore_step(state, manifest, request, false) is Ok,
        ({
            let (after, said, action) = restore_step(state, manifest, request, false)->Ok_0;
            let at = state.index as int;
            let selection = request.selections[at];
            let app = manifest.apps[selection.index as int];
            let shown = if app.name.len() == 0 {
                app.id
            } else {
                app.name
            };
            &&& at < request.selections.len() ==> {
                &&& after.phase == Phase::Install
                &&& after.index == at + 1
                &&& after.wanted == state.wanted
                &&& after.position == state.position + if selection.install {
                    1int
                } else {
                    0
                }
                &&& !selection.install || selection.index >= manifest.apps.len() ==> {
                    &&& action is Continue
                    &&& said.len() == 0
                    &&& after.report == state.report
                }
                &&& selection.install && selection.index < manifest.apps.len() ==> {
                    &&& said.len() > 0
                    &&& said[0] == (RestoreProgressView::Installing {
                        app: shown,
                        index: state.position as int,
                        total: install_count(request.selections) as int,
                    })
                    &&& match install_plan_of(app, request.install_to_user) {
                        Ok(plan) => {
                            &&& said.len() == 1
                            &&& action == (RestoreActionView::Install {
                                app: selection.index,
                                plan,
                            })
                            &&& plan.origin == app.origin
                            &&& plan.installation == if request.install_to_user {
                                InstallationView::User
                            } else {
                                app.installation
                            }
                            &&& after.report == state.report
                        },
                        Err(reason) => {
                            let issue = IssueView::InstallFailed { app: shown, message: reason };
                            &&& action is Continue
                            &&& said.len() == 2
                            &&& said[1] == RestoreProgressView::Issue(issue)
                            &&& after.report.issues == state.report.issues.push(issue)
                            &&& after.report.installed == state.report.installed
                        },
                    }
                }
            }
            &&& at == request.selections.len() ==> {
                &&& action is Continue
                &&& after == (RestoreView { phase: Phase::Data, index: 0, ..state })
            }
        }),
{
    let at = state.index as int;
    if at < request.selections.len() {
        let none = Seq::<RestoreSelection>::empty();
        let selection = request.selections[at];
        lemma_install_count_adds_up(request.selections.take(at), none, selection);
    }
}

/// How many are to be installed: one for each that asks for it.
pub proof fn lemma_install_count_adds_up(
    a: Seq<RestoreSelection>,
    b: Seq<RestoreSelection>,
    selection: RestoreSelection,
)
    ensures
        install_count(a + b) == install_count(a) + install_count(b),
        install_count(seq![selection]) == if selection.install {
            1nat
        } else {
            0nat
        },
        install_count(a) <= a.len(),
    decreases a.len() + b.len(),
{
    assert(seq![selection].drop_last() =~= Seq::<RestoreSelection>::empty());
    assert(install_count(seq![selection].drop_last()) == 0);
    assert(seq![selection].last() == selection);
    if b.len() == 0 {
        assert(a + b =~= a);
        if a.len() > 0 {
            lemma_install_count_adds_up(a.drop_last(), b, selection);
        }
    } else {
        lemma_install_count_adds_up(a, b.drop_last(), selection);
        assert((a + b).drop_last() =~= a + b.drop_last());
        assert((a + b).last() == b.last());
    }
}

/// The data of each selected application that the archive holds data of is asked for,
/// and of no other: existing data is looked for, and the extraction begins after the
/// last, if there is anything to extract.
pub proof fn lemma_data_is_asked_for_in_turn(
    state: RestoreView,
    manifest: ManifestView,
    request: RequestView,
    cancelled: bool,
)
    requires
        sound(state, manifest, request),
        request.selections.len() <= usize::MAX,
    ensures
        state.phase == Phase::Data ==> ({
            let (after, said, action) = restore_step(state, manifest, request, cancelled)->Ok_0;
            let at = state.index as int;
            let selection = request.selections[at];
            &&& restore_step(state, manifest, request, cancelled) is Ok
            &&& action is Continue
            &&& said.len() == 0
            &&& after.wanted == state.wanted
            &&& after.report == state.report
            &&& at < request.selections.len() ==> {
                let asked = selection.restore_data && selection.index < manifest.apps.len()
                    && manifest.apps[selection.index as int].data_included;
                &&& asked ==> after.phase == Phase::Inspecting && after.index == at
                &&& !asked ==> after.phase == Phase::Data && after.index == at + 1
            }
            &&& at == request.selections.len() ==> after.phase == if state.wanted.len() > 0 {
                Phase::Extract
            } else {
                Phase::Done
            }
        }),
        state.phase != Phase::Data && state.phase != Phase::Remotes && state.phase != Phase::Install
            ==> ({
            let (after, said, action) = restore_step(state, manifest, request, cancelled)->Ok_0;
            let app = request.selections[state.index as int].index;
            &&& restore_step(state, manifest, request, cancelled) is Ok
            &&& after == state
            &&& said.len() == 0
            &&& state.phase == Phase::Verify ==> action is VerifyPayload
            &&& state.phase == Phase::Inspecting ==> action == RestoreActionView::Inspect { app }
            &&& state.phase == Phase::Removing ==> action == RestoreActionView::Remove { app }
            &&& state.phase == Phase::Extract ==> action is Extract
            &&& state.phase == Phase::Done ==> action is Finish
        }),
{
}

/// Data that is not there yet is restored. Data that is there is left alone and
/// reported, or removed first, as the user chose; if it cannot be removed, that is
/// reported and nothing is restored over it. Either way the next application follows.
pub proof fn lemma_existing_data_is_treated_as_chosen(
    state: RestoreView,
    manifest: ManifestView,
    request: RequestView,
    failure: FailureView,
)
    requires
        sound(state, manifest, request),
        state.phase == Phase::Inspecting || state.phase == Phase::Removing,
        request.selections.len() <= usize::MAX,
    ensures
        ({
            let selection = request.selections[state.index as int];
            let app = manifest.apps[selection.index as int];
            let shown = if app.name.len() == 0 {
                app.id
            } else {
                app.name
            };
            let missing = after_inspection(state, manifest, request, false);
            let found = after_inspection(state, manifest, request, true);
            let removed = after_removal(state, manifest, request, None);
            let kept = after_removal(state, manifest, request, Some(failure));
            &&& missing.wanted == state.wanted.push(selection.index)
            &&& missing.report == state.report
            &&& missing.phase == Phase::Data && missing.index == state.index + 1
            &&& found.wanted == state.wanted
            &&& selection.on_conflict == ConflictChoice::Skip ==> {
                &&& found.report.issues == state.report.issues.push(
                    IssueView::DataSkipped { app: shown },
                )
                &&& found.report.data_restored == state.report.data_restored
                &&& found.phase == Phase::Data && found.index == state.index + 1
            }
            &&& selection.on_conflict == ConflictChoice::Replace ==> {
                &&& found.report == state.report
                &&& found.phase == Phase::Removing && found.index == state.index
            }
            &&& removed == missing
            &&& kept.wanted == state.wanted
            &&& kept.report.issues == state.report.issues.push(
                IssueView::DataRestoreFailed {
                    app: shown,
                    message: "existing data could not be removed: "@ + failure_text(failure),
                },
            )
            &&& kept.phase == Phase::Data && kept.index == state.index + 1
        }),
{
}

/// The report of a restore names all whose data was restored and all that went wrong,
/// behind what it held already.
pub proof fn lemma_extraction_is_reported(
    state: RestoreView,
    restored: Seq<Seq<char>>,
    issues: Seq<IssueView>,
)
    ensures
        ({
            let after = after_extraction(state, restored, issues);
            &&& after.phase == Phase::Done
            &&& after.report.data_restored == state.report.data_restored + restored
            &&& after.report.issues == state.report.issues + issues
            &&& after.report.installed == state.report.installed
            &&& after.report.interrupted_during_data == state.report.interrupted_during_data
        }),
{
}

/// What [`install_one`] plans goes back where it was: from the remote the entry names,
/// into the entry's own installation, or the user's if all go there; and the ref names
/// the entry's application, architecture and branch.
pub proof fn lemma_planned_installation_goes_back(
    entry: &AppEntry,
    install_to_user: bool,
    out: Result<InstallPlan, String>,
)
    requires
        call_ensures(install_one, (entry, install_to_user), out),
    ensures
        out matches Ok(plan) ==> {
            &&& plan.origin@ == entry.origin@
            &&& install_to_user ==> plan.installation@ == InstallationView::User
            &&& !install_to_user ==> plan.installation@ == entry.installation@
            &&& split(plan.reference@, '/') == seq!["app"@, entry.id@, entry.arch@, entry.branch@]
        },
        entry.origin@.len() == 0 ==> out is Err,
{
    if out is Ok {
        lemma_install_arguments_keep_their_shape(entry@, install_to_user);
    }
}

/// Cancelling stops a restore before the next remote is added or the next application
/// installed, and changes nothing else.
pub proof fn lemma_cancelling_stops_a_restore(
    state: RestoreView,
    manifest: ManifestView,
    request: RequestView,
)
    ensures
        ({
            let stopped = restore_step(state, manifest, request, true);
            let remotes_left = state.phase == Phase::Remotes && state.index < request.remotes.len();
            let installs_next = state.phase == Phase::Install && state.index
                < request.selections.len() && request.selections[state.index as int].install;
            &&& stopped is Err <==> remotes_left || installs_next
            &&& stopped matches Err(failure) ==> failure == FailureView::Cancelled
            &&& stopped is Ok ==> stopped == restore_step(state, manifest, request, false)
            &&& restore_step(state, manifest, request, false) is Ok
        }),
{
}

/// What came of installing an application is told: its name among those installed, or an
/// issue with the reason, and never both. Only a cancellation ends the restore.
pub proof fn lemma_installations_are_told(
    restore: &mut Restore,
    app: &AppEntry,
    outcome: Result<(), Failure>,
    out: Result<Option<RestoreProgress>, Failure>,
)
    requires
        call_ensures(Restore::installed, (restore, app, outcome), out),
    ensures
        ({
            let before = old(restore)@.report;
            let after = final(restore)@.report;
            let shown = if app@.name.len() == 0 {
                app@.id
            } else {
                app@.name
            };
            &&& outcome is Ok ==> after.installed == before.installed.push(shown) && after.issues
                == before.issues && out is Ok
            &&& outcome matches Err(error) ==> {
                &&& after.installed == before.installed
                &&& from_cancellation(error@) <==> out is Err
                &&& !from_cancellation(error@) ==> after.issues == before.issues.push(
                    IssueView::InstallFailed { app: shown, message: failure_text(error@) },
                )
                &&& from_cancellation(error@) ==> after.issues == before.issues
            }
        }),
{
}

/// A restore goes on only after the payload was found to be what its checksum says, and
/// then with the first remote.
pub proof fn lemma_only_sound_payloads_are_restored(
    restore: &mut Restore,
    check: PayloadCheck,
    backup: &Backup,
    out: Result<(), Failure>,
)
    requires
        old(restore)@.phase == Phase::Verify,
        call_ensures(Restore::verified, (restore, check, backup), out),
    ensures
        out is Ok <==> sha256(check.content())@ == backup.trailer@,
        out is Ok ==> final(restore)@.phase == Phase::Remotes && final(restore)@.index == 0,
        out is Err ==> final(restore)@.phase == Phase::Verify,
        final(restore)@.wanted == old(restore)@.wanted,
        final(restore)@.report == old(restore)@.report,
{
}

/// A remote that could not be added is reported with the reason, and one that was is not.
pub proof fn lemma_added_remotes_are_told(
    restore: &mut Restore,
    name: &str,
    outcome: Result<(), Failure>,
)
    requires
        call_ensures(Restore::remote_added, (restore, name, outcome), ()),
    ensures
        outcome is Ok ==> final(restore)@ == old(restore)@,
        outcome matches Err(error) ==> final(restore)@.report.issues == old(
            restore,
        )@.report.issues.push(IssueView::Other { message: name@ + ": "@ + failure_text(error@) }),
{
}

/// What came of the extraction is told: whose data was restored and what went wrong, and
/// if it was cancelled, that data may be incomplete.
pub proof fn lemma_extractions_are_told(
    restore: &mut Restore,
    outcome: Result<(Vec<String>, Vec<Issue>), Failure>,
    out: Result<(), Failure>,
)
    requires
        call_ensures(Restore::extracted, (restore, outcome), out),
    ensures
        ({
            let before = old(restore)@.report;
            let after = final(restore)@.report;
            &&& after.installed == before.installed
            &&& outcome matches Ok((restored, issues)) ==> {
                &&& after.data_restored == before.data_restored + views(restored@)
                &&& after.issues == before.issues + views(issues@)
                &&& after.interrupted_during_data == before.interrupted_during_data
                &&& out is Ok
            }
            &&& outcome matches Err(error) ==> {
                &&& after.data_restored == before.data_restored
                &&& from_cancellation(error@) ==> after.interrupted_during_data
                &&& !from_cancellation(error@) ==> after.interrupted_during_data
                    == before.interrupted_during_data
                &&& out is Err
            }
        }),
{
}

/// What [`Restore::inspected`] does with data that is there already is what the user chose
/// for that application, and it is told when it is left alone.
pub proof fn lemma_inspections_are_acted_on(
    restore: &mut Restore,
    manifest: &Manifest,
    request: &RestoreRequest,
    present: bool,
    progress: Option<RestoreProgress>,
)
    requires
        call_ensures(Restore::inspected, (restore, manifest, request, present), progress),
        sound(old(restore)@, manifest@, request@),
        old(restore)@.phase == Phase::Inspecting,
    ensures
        ({
            let before = old(restore)@;
            let after = final(restore)@;
            let selection = request@.selections[before.index as int];
            &&& !present ==> after.wanted == before.wanted.push(selection.index) && progress is None
            &&& present ==> after.wanted == before.wanted
            &&& present && selection.on_conflict == ConflictChoice::Replace ==> after.phase
                == Phase::Removing && progress is None
            &&& present && selection.on_conflict == ConflictChoice::Skip ==> after.phase
                == Phase::Data && progress is Some
        }),
{
}

} // verus!
