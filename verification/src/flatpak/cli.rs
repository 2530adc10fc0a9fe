//! Driving the `flatpak` command line tool: what to run, and what its output
//! means.
//!
//! FlatBak drives the CLI rather than linking libflatpak: the CLI is stable,
//! already handles authorisation via polkit for system installations, and works
//! unchanged when FlatBak itself runs inside a sandbox.

use vstd::prelude::*;
use crate::error::{Cancelled, Failure, FailureView, FlatpakUnavailable, FlatpakUnavailableView};
use crate::flatpak::model::{
    installation_of, scope_flag, InstalledApp, InstalledAppView, Installation, InstallationView,
    Remote, RemoteView,
};
use crate::text::{
    cat2, cat3, cat4, chars_of, copy_range, is_space, join, joined, lemma_lines_one_by_one,
    lemma_sorts_before_irreflexive, lemma_sorts_before_total, lemma_sorts_before_transitive,
    lemma_split_piece, lemma_split_undoes_joining, lemma_split_whole, lemma_trim_plain,
    lemma_trim_takes_off_space, lines, lossy_text, lowercase, rank, same_text, sorts_before, split,
    split_lines, split_on, split_words, text_lossy, text_of, to_lowercase, trim, trim_end, trim_end_of, trim_start,
    trimmed, trimmed_end_of, trimmed_text, views, words, Rank,
};
use crate::util::{parse_size, parsed_size};

verus! {

/// Keeps flatpak's output stable and parseable regardless of the user's locale,
/// and stops it from trying to draw progress bars.
pub const COMMAND_ENVIRONMENT: [(&'static str, &'static str); 2] = [
    ("LC_ALL", "C"),
    ("FLATPAK_FANCY_OUTPUT", "0"),
];

/// Files that only exist inside a container.
pub const CONTAINER_MARKERS: [&'static str; 3] = [
    "/run/.containerenv",
    "/run/.toolboxenv",
    "/.dockerenv",
];

/// Variables that are only set inside a container.
pub const CONTAINER_VARIABLES: [&'static str; 3] = [
    "CONTAINER_ID",
    "DISTROBOX_ENTER_PATH",
    "container",
];

/// What was found out about the system FlatBak runs on.
#[derive(Debug)]
pub struct HostProbe {
    /// The value of `FLATBAK_FLATPAK_CMD`, if it is set to text.
    pub custom_command: Option<String>,
    /// `/.flatpak-info` exists.
    pub inside_flatpak: bool,
    /// One of [`CONTAINER_MARKERS`] exists.
    pub container_marker: bool,
    /// One of [`CONTAINER_VARIABLES`] is set.
    pub container_variable: bool,
    /// `distrobox-host-exec` is on the search path.
    pub has_host_exec: bool,
    /// `flatpak-spawn` is on the search path.
    pub has_spawn: bool,
}

/// How to invoke `flatpak`.
///
/// When FlatBak runs inside a sandbox or container it must reach the *host's*
/// Flatpak installation, not the one inside the container (which typically has
/// none). The command prefix is resolved once at startup.
#[derive(Debug, Clone)]
pub struct Flatpak {
    prefix: Vec<String>,
}

impl View for Flatpak {
    type V = Seq<Seq<char>>;

    /// The words that every command starts with.
    closed spec fn view(&self) -> Seq<Seq<char>> {
        views(self.prefix@)
    }
}

/// True when this process appears to be inside a container.
///
/// The markers differ by runtime: podman and toolbox drop `/run/.containerenv`,
/// Docker drops `/.dockerenv`, and distrobox exports `CONTAINER_ID` regardless
/// of which of the two is underneath it. Any one of them is enough.
pub open spec fn inside_container(probe: HostProbe) -> bool {
    probe.container_marker || probe.container_variable
}

pub open spec fn spawn_prefix() -> Seq<Seq<char>> {
    seq!["flatpak-spawn"@, "--host"@, "flatpak"@]
}

/// The words that every command starts with on the probed system.
pub open spec fn command_prefix(probe: HostProbe) -> Seq<Seq<char>> {
    if probe.custom_command is Some && words(probe.custom_command->0@).len() > 0 {
        words(probe.custom_command->0@)
    } else if probe.inside_flatpak {
        spawn_prefix()
    } else if inside_container(probe) && probe.has_host_exec {
        seq!["distrobox-host-exec"@, "flatpak"@]
    } else if inside_container(probe) && probe.has_spawn {
        spawn_prefix()
    } else {
        seq!["flatpak"@]
    }
}

/// The texts made of each of `pieces`.
fn texts_of(pieces: &Vec<Vec<char>>) -> (out: Vec<String>)
    ensures
        views(out@) == views(pieces@),
{
    let mut out: Vec<String> = Vec::new();
    let mut i: usize = 0;
    while i < pieces.len()
        invariant
            i <= pieces@.len(),
            out@.len() == i,
            forall|k: int| 0 <= k < i ==> (#[trigger] out@[k])@ == pieces@[k]@,
        decreases pieces.len() - i,
    {
        out.push(text_of(&pieces[i]));
        i = i + 1;
    }
    assert(views(out@) =~= views(pieces@));
    out
}

/// Puts copies of `more` behind `out`.
fn extend_texts(out: &mut Vec<String>, more: &Vec<String>)
    ensures
        views(final(out)@) == views(old(out)@) + views(more@),
{
    let ghost start = views(out@);
    let mut i: usize = 0;
    assert(start + views(more@).take(0) =~= start);
    while i < more.len()
        invariant
            i <= more@.len(),
            views(out@) == start + views(more@).take(i as int),
        decreases more.len() - i,
    {
        let ghost before = views(out@);
        out.push(more[i].clone());
        proof {
            assert(views(out@) =~= before.push(more@[i as int]@));
            assert(start + views(more@).take(i + 1) =~= (start + views(more@).take(i as int)).push(
                more@[i as int]@,
            ));
        }
        i = i + 1;
    }
    assert(views(more@).take(more@.len() as int) =~= views(more@));
}

impl Flatpak {
    /// There is a program to run.
    pub open spec fn wf(&self) -> bool {
        self@.len() > 0
    }

    /// Works out how to reach a usable `flatpak`.
    ///
    /// `FLATBAK_FLATPAK_CMD` overrides the detection entirely and is split on
    /// whitespace, so `FLATBAK_FLATPAK_CMD="sudo flatpak"` works.
    ///
    /// A toolbox or distrobox container shares the user's home directory but has
    /// its own `/var`, so the host's flatpak is the one that knows about the
    /// user's applications. This is checked before falling back to a plain
    /// `flatpak`, because a container may well have the command installed over an
    /// empty installation of its own.
    pub fn detect(probe: &HostProbe) -> (out: Self)
        ensures
            out@ == command_prefix(*probe),
            out.wf(),
    {
        if let Some(custom) = &probe.custom_command {
            let prefix = texts_of(&split_words(&chars_of(custom)));
            if prefix.len() > 0 {
                return Flatpak { prefix };
            }
        }
        let mut prefix: Vec<String> = Vec::new();
        let contained = probe.container_marker || probe.container_variable;
        if probe.inside_flatpak || (contained && !probe.has_host_exec && probe.has_spawn) {
            prefix.push("flatpak-spawn".to_owned());
            prefix.push("--host".to_owned());
            prefix.push("flatpak".to_owned());
            assert(views(prefix@) =~= spawn_prefix());
        } else if contained && probe.has_host_exec {
            prefix.push("distrobox-host-exec".to_owned());
            prefix.push("flatpak".to_owned());
            assert(views(prefix@) =~= seq!["distrobox-host-exec"@, "flatpak"@]);
        } else {
            prefix.push("flatpak".to_owned());
            assert(views(prefix@) =~= seq!["flatpak"@]);
        }
        Flatpak { prefix }
    }

    /// The command prefix, for display in diagnostics.
    pub fn command_line(&self) -> (out: String)
        ensures
            out@ == joined(self@, " "@),
    {
        join(&self.prefix, " ")
    }

    /// The program and its arguments.
    pub fn command(&self, args: &Vec<String>) -> (out: Vec<String>)
        ensures
            views(out@) == self@ + views(args@),
            self.wf() ==> out@.len() > 0,
    {
        let mut out: Vec<String> = Vec::new();
        extend_texts(&mut out, &self.prefix);
        extend_texts(&mut out, args);
        assert(views(out@) =~= self@ + views(args@));
        assert(out@.len() == views(out@).len());
        out
    }

    // -------------------------------------------------------------- outcomes

    /// What a failure to start the command means.
    pub fn spawn_failure(not_found: bool, message: String) -> (out: Failure)
        ensures
            out@ == FailureView::Unavailable(
                if not_found {
                    FlatpakUnavailableView::NotFound
                } else {
                    FlatpakUnavailableView::Failed(message@)
                },
            ),
    {
        if not_found {
            Failure::Unavailable(FlatpakUnavailable::NotFound)
        } else {
            Failure::Unavailable(FlatpakUnavailable::Failed(message))
        }
    }

    /// What a command that ran to its end printed, or what it complained about.
    /// `status` is how the system describes its exit.
    pub fn run(
        args: &Vec<String>,
        success: bool,
        status: &str,
        stdout: &[u8],
        stderr: &[u8],
    ) -> (out: Result<String, Failure>)
        ensures
            out is Ok <==> success,
            out matches Ok(text) ==> text@ == lossy_text(stdout@),
            out matches Err(error) ==> error@ == FailureView::Message(
                complaint(views(args@), status@, lossy_text(stderr@)),
            ),
    {
        if success {
            return Ok(text_lossy(stdout));
        }
        let text = trimmed_text(&text_lossy(stderr));
        if text.as_str().is_empty() {
            Err(Failure::Message(cat4("flatpak ", &join(args, " "), " exited with ", status)))
        } else {
            Err(Failure::Message(text))
        }
    }

    /// Arguments that ask for the version.
    pub fn version_args() -> (out: Vec<String>)
        ensures
            views(out@) == seq!["--version"@],
    {
        let mut out: Vec<String> = Vec::new();
        out.push("--version".to_owned());
        assert(views(out@) =~= seq!["--version"@]);
        out
    }

    /// The version string in the output of `flatpak --version`.
    ///
    /// This doubles as the availability probe run at startup.
    pub fn version(output: Result<String, Failure>) -> (out: Result<String, Failure>)
        ensures
            output matches Ok(raw) ==> (out matches Ok(version) && version@ == version_in(raw@)),
            output matches Err(error) ==> (out matches Err(e) && e@ == error@),
    {
        match output {
            Ok(raw) => {
                let text = trimmed(&chars_of(&raw));
                let label = chars_of("Flatpak ");
                if starts_with(&text, &label) {
                    let rest = copy_range(&text, label.len(), text.len());
                    assert(rest@ =~= text@.skip(label@.len() as int));
                    Ok(text_of(&rest))
                } else {
                    Ok(text_of(&text))
                }
            },
            Err(error) => Err(error),
        }
    }

    /// Arguments that list installed applications. `:f` suppresses ellipsization
    /// so long values survive intact.
    pub fn list_apps_args() -> (out: Vec<String>)
        ensures
            views(out@) == seq!["list"@, "--app"@, app_columns()],
    {
        let mut out: Vec<String> = Vec::new();
        out.push("list".to_owned());
        out.push("--app".to_owned());
        out.push(
            "--columns=application:f,name:f,version:f,branch:f,arch:f,origin:f,installation:f,ref:f,active:f,size:f".to_owned(),
        );
        assert(views(out@) =~= seq!["list"@, "--app"@, app_columns()]);
        out
    }

    /// The installed applications in what [`Flatpak::list_apps_args`] printed,
    /// sorted by display name and ID.
    ///
    /// Runtimes are excluded: they are reinstalled automatically as
    /// dependencies of the applications that need them.
    pub fn list_apps(output: Result<String, Failure>) -> (out: Result<Vec<InstalledApp>, Failure>)
        ensures
            output matches Ok(raw) ==> (out matches Ok(apps) && is_sorting_of(
                by_shown_name(views(apps@)),
                by_shown_name(app_rows(lines(raw@))),
            )),
            output matches Err(error) ==> (out matches Err(e) && e@ == (FailureView::During {
                context: "Could not list installed Flatpak applications"@,
                cause: Box::new(error@),
            })),
    {
        match output {
            Err(error) => Err(error.during("Could not list installed Flatpak applications")),
            Ok(raw) => {
                let all = split_lines(&chars_of(&raw));
                let ghost ls = lines(raw@);
                let ghost rows = app_rows(ls);
                let mut keyed: Vec<KeyedApp> = Vec::new();
                let mut i: usize = 0;
                assert(ls.take(0) =~= Seq::<Seq<char>>::empty());
                assert(views(keyed@) =~= by_shown_name(app_rows(ls.take(0))));
                while i < all.len()
                    invariant
                        i <= all@.len(),
                        views(all@) == ls,
                        views(keyed@) == by_shown_name(app_rows(ls.take(i as int))),
                    decreases all.len() - i,
                {
                    let row = parse_app_row(&all[i]);
                    proof {
                        assert(ls.take(i + 1).drop_last() =~= ls.take(i as int));
                        assert(ls.take(i + 1).last() == all@[i as int]@);
                    }
                    if let Some(app) = row {
                        let ghost before = keyed@;
                        let ghost shown = app@;
                        keyed.push(KeyedApp { name: to_lowercase(app.display_name()), app });
                        proof {
                            let seen = app_rows(ls.take(i as int));
                            assert(views(keyed@) =~= views(before).push(keyed@.last()@));
                            assert(by_shown_name(seen.push(shown)) =~= by_shown_name(seen).push(
                                keyed@.last()@,
                            ));
                        }
                    }
                    i = i + 1;
                }
                assert(ls.take(ls.len() as int) =~= ls);
                let sorted = sort_apps(keyed);
                let apps = unkeyed(sorted);
                proof {
                    assert forall|k: int| 0 <= k < sorted@.len() implies views(
                        sorted@,
                    )[k] == #[trigger] by_shown_name(views(apps@))[k] by {
                        lemma_sorting_adds_nothing(views(sorted@), by_shown_name(rows), k);
                    }
                    assert(views(sorted@) =~= by_shown_name(views(apps@)));
                }
                Ok(apps)
            },
        }
    }

    /// Arguments that list configured remotes.
    pub fn list_remotes_args() -> (out: Vec<String>)
        ensures
            views(out@) == seq!["remotes"@, "--columns=name:f,title:f,url:f,options:f"@],
    {
        let mut out: Vec<String> = Vec::new();
        out.push("remotes".to_owned());
        out.push("--columns=name:f,title:f,url:f,options:f".to_owned());
        assert(views(out@) =~= seq!["remotes"@, "--columns=name:f,title:f,url:f,options:f"@]);
        out
    }

    /// The configured remotes in what [`Flatpak::list_remotes_args`] printed.
    pub fn list_remotes(output: Result<String, Failure>) -> (out: Result<Vec<Remote>, Failure>)
        ensures
            output matches Ok(raw) ==> (out matches Ok(remotes) && views(remotes@) == remote_rows(
                lines(raw@),
            )),
            output matches Err(error) ==> (out matches Err(e) && e@ == (FailureView::During {
                context: "Could not list Flatpak remotes"@,
                cause: Box::new(error@),
            })),
    {
        match output {
            Err(error) => Err(error.during("Could not list Flatpak remotes")),
            Ok(raw) => {
                let all = split_lines(&chars_of(&raw));
                let ghost ls = lines(raw@);
                let mut out: Vec<Remote> = Vec::new();
                let mut i: usize = 0;
                assert(ls.take(0) =~= Seq::<Seq<char>>::empty());
                assert(views(out@) =~= Seq::<RemoteView>::empty());
                while i < all.len()
                    invariant
                        i <= all@.len(),
                        views(all@) == ls,
                        views(out@) == remote_rows(ls.take(i as int)),
                    decreases all.len() - i,
                {
                    let row = parse_remote_row(&all[i]);
                    proof {
                        assert(ls.take(i + 1).drop_last() =~= ls.take(i as int));
                        assert(ls.take(i + 1).last() == all@[i as int]@);
                    }
                    if let Some(remote) = row {
                        let ghost before = views(out@);
                        let ghost remote_view = remote@;
                        out.push(remote);
                        assert(views(out@) =~= before.push(remote_view));
                    }
                    i = i + 1;
                }
                assert(ls.take(ls.len() as int) =~= ls);
                Ok(out)
            },
        }
    }

    /// Arguments that add a remote, so a restore can proceed when the original is
    /// missing.
    pub fn add_remote_args(name: &str, url: &str, installation: &Installation) -> (out: Vec<String>)
        ensures
            views(out@) == seq![
                "remote-add"@,
                "--if-not-exists"@,
                scope_flag(installation@),
                name@,
                url@,
            ],
    {
        let mut out: Vec<String> = Vec::new();
        out.push("remote-add".to_owned());
        out.push("--if-not-exists".to_owned());
        let scope = installation.cli_args();
        extend_texts(&mut out, &scope);
        proof {
            assert(views(scope@) =~= seq![scope_flag(installation@)]);
            assert(views(out@) =~= seq![
                "remote-add"@,
                "--if-not-exists"@,
                scope_flag(installation@),
            ]);
        }
        let ghost start = out@;
        out.push(name.to_owned());
        out.push(url.to_owned());
        assert(views(out@).take(3) =~= views(start));
        assert(views(out@) =~= seq![
            "remote-add"@,
            "--if-not-exists"@,
            scope_flag(installation@),
            name@,
            url@,
        ]);
        out
    }

    /// What the command that adds the remote `name` came to.
    pub fn add_remote(name: &str, output: Result<String, Failure>) -> (out: Result<(), Failure>)
        ensures
            out is Ok <==> output is Ok,
            output matches Err(error) ==> (out matches Err(e) && e@ == (FailureView::During {
                context: "Could not add the remote \u{201c}"@ + name@ + "\u{201d}"@,
                cause: Box::new(error@),
            })),
    {
        match output {
            Ok(_) => Ok(()),
            Err(error) => Err(
                error.during(&cat3("Could not add the remote \u{201c}", name, "\u{201d}")),
            ),
        }
    }

    /// Arguments that install one application.
    ///
    /// `--or-update` makes this idempotent: restoring onto a system that already
    /// has some of the applications updates them instead of failing with
    /// "already installed", so a restore can safely be run twice.
    pub fn install_args(remote: &str, reference: &str, installation: &Installation) -> (out: Vec<
        String,
    >)
        ensures
            views(out@) == seq![
                "install"@,
                "--noninteractive"@,
                "--or-update"@,
                scope_flag(installation@),
                remote@,
                reference@,
            ],
    {
        let mut out: Vec<String> = Vec::new();
        out.push("install".to_owned());
        out.push("--noninteractive".to_owned());
        out.push("--or-update".to_owned());
        let scope = installation.cli_args();
        extend_texts(&mut out, &scope);
        proof {
            assert(views(scope@) =~= seq![scope_flag(installation@)]);
            assert(views(out@) =~= seq![
                "install"@,
                "--noninteractive"@,
                "--or-update"@,
                scope_flag(installation@),
            ]);
        }
        let ghost start = out@;
        out.push(remote.to_owned());
        out.push(reference.to_owned());
        assert(views(out@).take(4) =~= views(start));
        assert(views(out@) =~= seq![
            "install"@,
            "--noninteractive"@,
            "--or-update"@,
            scope_flag(installation@),
            remote@,
            reference@,
        ]);
        out
    }

    /// What an installation that ended came to, given whether it was cancelled
    /// meanwhile, how it exited and what it wrote to its error output.
    ///
    /// A cancellation is reported as one, whatever the command made of being
    /// killed; a failure by the last thing the command complained about.
    pub fn install(
        cancelled: bool,
        success: bool,
        status: &str,
        stderr_lines: &Vec<String>,
    ) -> (out: Result<(), Failure>)
        ensures
            cancelled ==> (out matches Err(error) && error@ == FailureView::Cancelled),
            !cancelled && success ==> out is Ok,
            !cancelled && !success ==> (out matches Err(error) && error@ == FailureView::Message(
                last_complaint(views(stderr_lines@), status@),
            )),
    {
        if cancelled {
            return Err(Failure::Cancelled(Cancelled));
        }
        if success {
            return Ok(());
        }
        let mut n: usize = stderr_lines.len();
        let ghost all = views(stderr_lines@);
        assert(all.take(n as int) =~= all);
        while n > 0
            invariant
                !cancelled && !success,
                n <= stderr_lines@.len(),
                all == views(stderr_lines@),
                last_complaint(all, status@) == last_complaint(all.take(n as int), status@),
            decreases n,
        {
            let line = &stderr_lines[n - 1];
            proof {
                assert(all.take(n as int).last() == line@);
                assert(all.take(n as int).drop_last() =~= all.take(n - 1));
            }
            if !trimmed_text(line).as_str().is_empty() {
                return Err(Failure::Message(line.clone()));
            }
            n = n - 1;
        }
        Err(Failure::Message(cat2("flatpak install exited with ", status)))
    }

    /// One line of output worth showing, without the white space around it.
    pub fn install_output(line: &str) -> (out: Option<String>)
        ensures
            out is Some <==> trim(line@).len() > 0,
            out matches Some(text) ==> text@ == trim(line@),
    {
        let text = trimmed_text(line);
        if text.as_str().is_empty() {
            None
        } else {
            Some(text)
        }
    }

    /// What to do about a running installation, so that cancelling takes effect
    /// promptly instead of with the next line of output.
    pub fn watch(cancelled: bool, finished: bool) -> (out: Watch)
        ensures
            out == if cancelled {
                Watch::Kill
            } else if finished {
                Watch::Stop
            } else {
                Watch::Wait
            },
    {
        if cancelled {
            Watch::Kill
        } else if finished {
            Watch::Stop
        } else {
            Watch::Wait
        }
    }
}

/// What to do about a running installation.
#[derive(Debug, Clone, Copy, PartialEq, Eq, Structural)]
pub enum Watch {
    /// Look again in a moment.
    Wait,
    /// There is nothing left to watch.
    Stop,
    /// End the command.
    Kill,
}

/// What a command that failed complained about.
pub open spec fn complaint(args: Seq<Seq<char>>, status: Seq<char>, stderr: Seq<char>) -> Seq<
    char,
> {
    let text = trim(stderr);
    if text.len() == 0 {
        "flatpak "@ + joined(args, " "@) + " exited with "@ + status
    } else {
        text
    }
}

/// The last one of `stderr_lines` with something on it.
pub open spec fn last_complaint(stderr_lines: Seq<Seq<char>>, status: Seq<char>) -> Seq<char>
    decreases stderr_lines.len(),
{
    if stderr_lines.len() == 0 {
        "flatpak install exited with "@ + status
    } else if trim(stderr_lines.last()).len() > 0 {
        stderr_lines.last()
    } else {
        last_complaint(stderr_lines.drop_last(), status)
    }
}

/// The version in the output of `flatpak --version`.
pub open spec fn version_in(raw: Seq<char>) -> Seq<char> {
    let text = trim(raw);
    let label = "Flatpak "@;
    if text.len() >= label.len() && text.take(label.len() as int) == label {
        text.skip(label.len() as int)
    } else {
        text
    }
}

fn starts_with(s: &[char], start: &[char]) -> (yes: bool)
    ensures
        yes == (s@.len() >= start@.len() && s@.take(start@.len() as int) == start@),
{
    if s.len() < start.len() {
        return false;
    }
    let mut i: usize = 0;
    while i < start.len()
        invariant
            i <= start@.len() <= s@.len(),
            forall|k: int| 0 <= k < i ==> s@[k] == start@[k],
        decreases start.len() - i,
    {
        if s[i] != start[i] {
            assert(s@.take(start@.len() as int)[i as int] != start@[i as int]);
            return false;
        }
        i = i + 1;
    }
    assert(s@.take(start@.len() as int) =~= start@);
    true
}

pub open spec fn app_columns() -> Seq<char> {
    "--columns=application:f,name:f,version:f,branch:f,arch:f,origin:f,installation:f,ref:f,active:f,size:f"@
}

// ---------------------------------------------------------------- app rows

/// A column's value: `-` stands for nothing.
pub open spec fn cleaned(field: Seq<char>) -> Seq<char> {
    if trim(field) == "-"@ {
        Seq::empty()
    } else {
        trim(field)
    }
}

/// The application that one line of output describes, if it has the expected
/// shape. A row of any other is skipped rather than mis-attributing fields to
/// the wrong column.
pub open spec fn app_row(line: Seq<char>) -> Option<InstalledAppView> {
    let text = trim_end_of(line, '\r');
    let fields = split(text, '\t');
    if trim(text).len() == 0 || fields.len() < 10 || cleaned(fields[0]).len() == 0 {
        None
    } else {
        Some(
            InstalledAppView {
                id: cleaned(fields[0]),
                name: cleaned(fields[1]),
                version: cleaned(fields[2]),
                branch: cleaned(fields[3]),
                arch: cleaned(fields[4]),
                origin: cleaned(fields[5]),
                installation: installation_of(fields[6]),
                reference: cleaned(fields[7]),
                commit: cleaned(fields[8]),
                installed_size: parsed_size(fields[9]),
            },
        )
    }
}

/// The applications that `ls` describe, in order.
pub open spec fn app_rows(ls: Seq<Seq<char>>) -> Seq<InstalledAppView>
    decreases ls.len(),
{
    if ls.len() == 0 {
        Seq::empty()
    } else {
        let before = app_rows(ls.drop_last());
        match app_row(ls.last()) {
            Some(app) => before.push(app),
            None => before,
        }
    }
}

fn clean(field: &Vec<char>) -> (out: String)
    ensures
        out@ == cleaned(field@),
{
    let text = text_of(&trimmed(field));
    if same_text(&text, "-") {
        let out = String::new();
        assert(out@ =~= Seq::<char>::empty());
        out
    } else {
        text
    }
}

fn parse_app_row(line: &Vec<char>) -> (out: Option<InstalledApp>)
    ensures
        out is Some <==> app_row(line@) is Some,
        out matches Some(app) ==> app_row(line@) == Some(app@),
{
    let text = trimmed_end_of(line, '\r');
    if trimmed(&text).len() == 0 {
        return None;
    }
    let fields = split_on(&text, '\t');
    let ghost fs = split(text@, '\t');
    assert(fields@.len() == fs.len());
    if fields.len() < 10 {
        return None;
    }
    assert(forall|i: int| 0 <= i < 10 ==> #[trigger] fs[i] == fields@[i]@);
    let id = clean(&fields[0]);
    if id.as_str().is_empty() {
        return None;
    }
    Some(
        InstalledApp {
            id,
            name: clean(&fields[1]),
            version: clean(&fields[2]),
            branch: clean(&fields[3]),
            arch: clean(&fields[4]),
            origin: clean(&fields[5]),
            installation: Installation::parse(&text_of(&fields[6])),
            reference: clean(&fields[7]),
            commit: clean(&fields[8]),
            installed_size: parse_size(&text_of(&fields[9])),
        },
    )
}

/// The columns that are asked for, in their order.
pub proof fn lemma_app_columns()
    ensures
        split(app_columns(), ',') == seq![
            "--columns=application:f"@,
            "name:f"@,
            "version:f"@,
            "branch:f"@,
            "arch:f"@,
            "origin:f"@,
            "installation:f"@,
            "ref:f"@,
            "active:f"@,
            "size:f"@,
        ],
{
    reveal_strlit(
        "--columns=application:f,name:f,version:f,branch:f,arch:f,origin:f,installation:f,ref:f,active:f,size:f",
    );
    reveal_strlit("--columns=application:f");
    reveal_strlit("name:f");
    reveal_strlit("version:f");
    reveal_strlit("branch:f");
    reveal_strlit("arch:f");
    reveal_strlit("origin:f");
    reveal_strlit("installation:f");
    reveal_strlit("ref:f");
    reveal_strlit("active:f");
    reveal_strlit("size:f");
    let a = "--columns=application:f"@;
    let b = a.push(',') + "name:f"@;
    let c = b.push(',') + "version:f"@;
    let d = c.push(',') + "branch:f"@;
    let e = d.push(',') + "arch:f"@;
    let f = e.push(',') + "origin:f"@;
    let g = f.push(',') + "installation:f"@;
    let h = g.push(',') + "ref:f"@;
    let i = h.push(',') + "active:f"@;
    let j = i.push(',') + "size:f"@;
    lemma_split_whole(a, ',');
    lemma_split_piece(a, "name:f"@, ',');
    lemma_split_piece(b, "version:f"@, ',');
    lemma_split_piece(c, "branch:f"@, ',');
    lemma_split_piece(d, "arch:f"@, ',');
    lemma_split_piece(e, "origin:f"@, ',');
    lemma_split_piece(f, "installation:f"@, ',');
    lemma_split_piece(g, "ref:f"@, ',');
    lemma_split_piece(h, "active:f"@, ',');
    lemma_split_piece(i, "size:f"@, ',');
    assert(app_columns() =~= j);
    assert(split(j, ',') =~= seq![
        "--columns=application:f"@,
        "name:f"@,
        "version:f"@,
        "branch:f"@,
        "arch:f"@,
        "origin:f"@,
        "installation:f"@,
        "ref:f"@,
        "active:f"@,
        "size:f"@,
    ]);
}

/// One row of a table, with a tab between each two values.
pub open spec fn table_row(values: Seq<Seq<char>>) -> Seq<char> {
    joined(values, seq!['\t'])
}

/// True if `values` can stand in one row of a table.
pub open spec fn fits_in_row(values: Seq<Seq<char>>) -> bool {
    forall|k: int, i: int|
        0 <= k < values.len() && 0 <= i < values[k].len() ==> #[trigger] values[k][i] != '\t'
            && values[k][i] != '\n' && values[k][i] != '\r'
}

/// Each field of an application is what stands in its column: the one at the place
/// where [`app_columns`] asks for it.
pub proof fn lemma_app_fields_come_from_their_columns(values: Seq<Seq<char>>)
    requires
        fits_in_row(values),
        values.len() == 10,
        forall|k: int|
            0 <= k < 10 ==> (#[trigger] values[k]).len() > 0 && values[k] != "-"@ && !is_space(
                values[k][0],
            ) && !is_space(values[k].last()),
    ensures
        app_row(table_row(values)) is Some,
        ({
            let app = app_row(table_row(values))->Some_0;
            &&& app.id == values[0]
            &&& app.name == values[1]
            &&& app.version == values[2]
            &&& app.branch == values[3]
            &&& app.arch == values[4]
            &&& app.origin == values[5]
            &&& values[6] == "user"@ ==> app.installation == InstallationView::User
            &&& values[6] == "system"@ ==> app.installation == InstallationView::System
            &&& values[6] != "user"@ && values[6] != "system"@ ==> app.installation
                == InstallationView::Named(values[6])
            &&& app.reference == values[7]
            &&& app.commit == values[8]
            &&& app.installed_size == parsed_size(values[9])
        }),
{
    lemma_any_app_row(values);
    assert forall|k: int| 0 <= k < 10 implies trim(#[trigger] values[k]) == values[k] by {
        lemma_trim_plain(values[k]);
    }
    assert(values[0].len() > 0);
    reveal_strlit("");
    reveal_strlit("user");
    reveal_strlit("system");
    assert("user"@.len() != "system"@.len());
    assert(values[6].len() > 0);
    assert(trim(values[6]) == values[6]);
}

/// Whatever stands in the columns, each field is its column's value without the white
/// space around it, and a value that is `-` is empty. A row without an ID, or with too
/// few columns, is left out; columns that were not asked for do not count.
pub proof fn lemma_any_app_row(values: Seq<Seq<char>>)
    requires
        fits_in_row(values),
        values.len() > 0,
    ensures
        app_row(table_row(values)) is Some <==> values.len() >= 10 && trim(values[0]).len() > 0
            && trim(values[0]) != "-"@,
        app_row(table_row(values)) matches Some(app) ==> {
            &&& app.id == trim(values[0])
            &&& app.name == if trim(values[1]) == "-"@ { Seq::empty() } else { trim(values[1]) }
            &&& app.version == if trim(values[2]) == "-"@ { Seq::empty() } else { trim(values[2]) }
            &&& app.branch == if trim(values[3]) == "-"@ { Seq::empty() } else { trim(values[3]) }
            &&& app.arch == if trim(values[4]) == "-"@ { Seq::empty() } else { trim(values[4]) }
            &&& app.origin == if trim(values[5]) == "-"@ { Seq::empty() } else { trim(values[5]) }
            &&& app.installation == installation_of(values[6])
            &&& app.reference == if trim(values[7]) == "-"@ { Seq::empty() } else { trim(values[7]) }
            &&& app.commit == if trim(values[8]) == "-"@ { Seq::empty() } else { trim(values[8]) }
            &&& app.installed_size == parsed_size(values[9])
        },
{
    let line = table_row(values);
    assert forall|k: int, i: int|
        0 <= k < values.len() && 0 <= i < values[k].len() implies #[trigger] values[k][i]
        != '\t' by {}
    lemma_split_undoes_joining(values, '\t');
    lemma_row_has_no_return(values);
    assert(trim_end_of(line, '\r') == line);
    lemma_trim_takes_off_space(line);
    lemma_trim_takes_off_space(values[0]);
    if trim(line).len() == 0 {
        lemma_row_starts_with_first(values);
        assert forall|i: int| 0 <= i < values[0].len() implies is_space(
            #[trigger] values[0][i],
        ) by {
            assert(values[0][i] == line[i]);
        }
    }
}

proof fn lemma_row_has_no_return(values: Seq<Seq<char>>)
    requires
        fits_in_row(values),
    ensures
        forall|i: int|
            0 <= i < table_row(values).len() ==> #[trigger] table_row(values)[i] != '\r'
                && table_row(values)[i] != '\n',
    decreases values.len(),
{
    let row = table_row(values);
    if values.len() > 0 {
        let less = values.drop_last();
        let last = values[values.len() - 1];
        assert forall|k: int, i: int|
            0 <= k < less.len() && 0 <= i < less[k].len() implies #[trigger] less[k][i] != '\t'
            && less[k][i] != '\n' && less[k][i] != '\r' by {
            assert(values[k][i] != '\t');
        }
        lemma_row_has_no_return(less);
        let before = table_row(less);
        assert forall|i: int| 0 <= i < row.len() implies #[trigger] row[i] != '\r' && row[i]
            != '\n' by {
            if values.len() == 1 {
                assert(row[i] == values[0][i]);
            } else if i < before.len() {
                assert(row[i] == before[i]);
            } else if i > before.len() {
                assert(row[i] == values[values.len() - 1][i - before.len() - 1]);
            }
        }
    }
}

proof fn lemma_row_starts_with_first(values: Seq<Seq<char>>)
    requires
        values.len() > 0,
    ensures
        values[0].is_prefix_of(table_row(values)),
    decreases values.len(),
{
    if values.len() > 1 {
        let less = values.drop_last();
        lemma_row_starts_with_first(less);
        assert(less[0] == values[0]);
        let before = table_row(less);
        assert(table_row(values).take(values[0].len() as int) =~= before.take(
            values[0].len() as int,
        ));
    } else {
        assert(table_row(values).take(values[0].len() as int) =~= values[0]);
    }
}

/// The text of a table: each row ended by a line feed.
pub open spec fn table_text(rows: Seq<Seq<Seq<char>>>) -> Seq<char>
    decreases rows.len(),
{
    if rows.len() == 0 {
        Seq::empty()
    } else {
        table_row(rows[0]).push('\n') + table_text(rows.skip(1))
    }
}

/// A table is read row by row.
pub proof fn lemma_table_is_read_by_rows(rows: Seq<Seq<Seq<char>>>)
    requires
        forall|r: int| 0 <= r < rows.len() ==> fits_in_row(#[trigger] rows[r]),
    ensures
        lines(table_text(rows)).len() == rows.len(),
        forall|r: int|
            0 <= r < rows.len() ==> #[trigger] lines(table_text(rows))[r] == table_row(rows[r]),
    decreases rows.len(),
{
    if rows.len() == 0 {
        lemma_lines_one_by_one(Seq::empty(), Seq::empty());
    } else {
        let rest = rows.skip(1);
        let line = table_row(rows[0]);
        assert forall|r: int| 0 <= r < rest.len() implies fits_in_row(#[trigger] rest[r]) by {
            assert(rest[r] == rows[r + 1]);
        }
        lemma_table_is_read_by_rows(rest);
        assert(fits_in_row(rows[0]));
        lemma_row_has_no_return(rows[0]);
        lemma_lines_one_by_one(line, table_text(rest));
        let all = lines(table_text(rows));
        assert(all == seq![line] + lines(table_text(rest)));
        assert forall|r: int| 0 <= r < rows.len() implies #[trigger] all[r] == table_row(
            rows[r],
        ) by {
            if r > 0 {
                assert(all[r] == lines(table_text(rest))[r - 1]);
                assert(rest[r - 1] == rows[r]);
            }
        }
    }
}

/// Rows that describe applications are listed one for one and in their order, and
/// other rows are left out.
pub proof fn lemma_app_rows_one_by_one(ls: Seq<Seq<char>>, line: Seq<char>)
    ensures
        app_row(line) matches Some(app) ==> app_rows(ls.push(line)) == app_rows(ls).push(app),
        app_row(line) is None ==> app_rows(ls.push(line)) == app_rows(ls),
        app_rows(Seq::empty()).len() == 0,
        (forall|i: int| 0 <= i < ls.len() ==> app_row(#[trigger] ls[i]) is Some) ==> {
            &&& app_rows(ls).len() == ls.len()
            &&& forall|i: int|
                0 <= i < ls.len() ==> app_row(ls[i]) == Some(#[trigger] app_rows(ls)[i])
        },
    decreases ls.len(),
{
    assert(ls.push(line).drop_last() =~= ls);
    if ls.len() > 0 && (forall|i: int| 0 <= i < ls.len() ==> app_row(#[trigger] ls[i]) is Some) {
        let less = ls.drop_last();
        lemma_app_rows_one_by_one(less, line);
        assert forall|i: int| 0 <= i < less.len() implies app_row(#[trigger] less[i]) is Some by {
            assert(less[i] == ls[i]);
        }
        assert(app_row(ls[ls.len() - 1]) is Some);
        assert forall|i: int| 0 <= i < ls.len() implies app_row(ls[i]) == Some(
            #[trigger] app_rows(ls)[i],
        ) by {
            if i < less.len() {
                assert(less[i] == ls[i]);
                assert(app_rows(ls)[i] == app_rows(less)[i]);
            }
        }
    }
}

// ----------------------------------------------------------------- sorting

/// An application, and its name as it is sorted by.
#[derive(Debug)]
pub struct KeyedApp {
    pub name: String,
    pub app: InstalledApp,
}

pub struct KeyedAppView {
    pub name: Seq<char>,
    pub app: InstalledAppView,
}

impl View for KeyedApp {
    type V = KeyedAppView;

    open spec fn view(&self) -> KeyedAppView {
        KeyedAppView { name: self.name@, app: self.app@ }
    }
}

/// What applications are sorted by: their names, then their IDs.
pub open spec fn sort_key(app: KeyedAppView) -> (Seq<char>, Seq<char>) {
    (app.name, app.app.id)
}

/// Applications, each sorted by its display name regardless of case.
pub open spec fn by_shown_name(apps: Seq<InstalledAppView>) -> Seq<KeyedAppView> {
    Seq::new(
        apps.len(),
        |i: int| KeyedAppView { name: lowercase(apps[i].shown_name()), app: apps[i] },
    )
}

pub open spec fn key_before(a: (Seq<char>, Seq<char>), b: (Seq<char>, Seq<char>)) -> bool {
    sorts_before(a.0, b.0) || (a.0 == b.0 && sorts_before(a.1, b.1))
}

pub open spec fn with_key(key: (Seq<char>, Seq<char>)) -> spec_fn(KeyedAppView) -> bool {
    |app: KeyedAppView| sort_key(app) == key
}

/// No application comes after one that it sorts before.
pub open spec fn is_sorted(apps: Seq<KeyedAppView>) -> bool {
    forall|i: int, j: int|
        0 <= i < j < apps.len() ==> !key_before(sort_key(#[trigger] apps[j]), sort_key(#[trigger] apps[i]))
}

/// `sorted` holds what `apps` holds, sorted, and leaves applications that sort
/// alike in their order.
pub open spec fn is_sorting_of(
    sorted: Seq<KeyedAppView>,
    apps: Seq<KeyedAppView>,
) -> bool {
    &&& is_sorted(sorted)
    &&& forall|key: (Seq<char>, Seq<char>)| #[trigger]
        sorted.filter(with_key(key)) == apps.filter(with_key(key))
}

proof fn lemma_key_order(
    a: (Seq<char>, Seq<char>),
    b: (Seq<char>, Seq<char>),
    c: (Seq<char>, Seq<char>),
)
    ensures
        !key_before(a, a),
        key_before(a, b) && key_before(b, c) ==> key_before(a, c),
        key_before(a, b) || a == b || key_before(b, a),
        key_before(a, b) ==> !key_before(b, a),
{
    lemma_sorts_before_irreflexive(a.0);
    lemma_sorts_before_irreflexive(a.1);
    lemma_sorts_before_total(a.0, b.0);
    lemma_sorts_before_total(a.1, b.1);
    if sorts_before(a.0, b.0) && sorts_before(b.0, c.0) {
        lemma_sorts_before_transitive(a.0, b.0, c.0);
    }
    if sorts_before(a.1, b.1) && sorts_before(b.1, c.1) {
        lemma_sorts_before_transitive(a.1, b.1, c.1);
    }
    if sorts_before(a.0, b.0) && sorts_before(b.0, a.0) {
        lemma_sorts_before_transitive(a.0, b.0, a.0);
    }
    if sorts_before(a.1, b.1) && sorts_before(b.1, a.1) {
        lemma_sorts_before_transitive(a.1, b.1, a.1);
    }
    lemma_sorts_before_irreflexive(b.0);
}

proof fn lemma_sorting_of_nothing()
    ensures
        is_sorting_of(Seq::empty(), Seq::empty()),
{
}

/// Taking in `app` behind everything that does not sort after it keeps a sorting
/// a sorting.
proof fn lemma_sorting_of_more(
    before: Seq<KeyedAppView>,
    apps: Seq<KeyedAppView>,
    app: KeyedAppView,
    after: Seq<KeyedAppView>,
)
    requires
        is_sorting_of(before, apps),
        inserted(before, app, after),
    ensures
        is_sorting_of(after, apps.push(app)),
{
    let at = choose|at: int| inserted_at(before, app, after, at);
    let low = before.take(at);
    let high = before.skip(at);
    assert(after =~= low + seq![app] + high);
    assert(before =~= low + high);
    assert forall|i: int, j: int| 0 <= i < j < after.len() implies !key_before(
        sort_key(#[trigger] after[j]),
        sort_key(#[trigger] after[i]),
    ) by {
        if i < at && j == at {
            assert(after[i] == before[i]);
        } else if i == at {
            assert(after[j] == before[j - 1]);
            lemma_key_order(sort_key(app), sort_key(after[j]), sort_key(app));
        } else if j < at {
            assert(after[i] == before[i] && after[j] == before[j]);
        } else if i < at {
            assert(after[i] == before[i] && after[j] == before[j - 1]);
        } else {
            assert(after[i] == before[i - 1] && after[j] == before[j - 1]);
        }
    }
    assert forall|key: (Seq<char>, Seq<char>)| #[trigger]
        after.filter(with_key(key)) == apps.push(app).filter(with_key(key)) by {
        let p = with_key(key);
        Seq::filter_distributes_over_add(low, high, p);
        Seq::filter_distributes_over_add(low + seq![app], high, p);
        Seq::filter_distributes_over_add(low, seq![app], p);
        Seq::filter_distributes_over_add(apps, seq![app], p);
        assert(apps.push(app) =~= apps + seq![app]);
        assert(before.filter(p) == apps.filter(p));
        if p(app) {
            lemma_filter_none(high, p, at, before, app);
            assert(high.filter(p) =~= Seq::<KeyedAppView>::empty());
            assert(after.filter(p) =~= apps.push(app).filter(p));
        } else {
            lemma_filter_one(app, p);
            assert(after.filter(p) =~= low.filter(p) + high.filter(p));
            assert(apps.push(app).filter(p) =~= apps.filter(p));
        }
    }
}

proof fn lemma_filter_one(app: KeyedAppView, p: spec_fn(KeyedAppView) -> bool)
    requires
        !p(app),
    ensures
        seq![app].filter(p) == Seq::<KeyedAppView>::empty(),
{
    reveal(Seq::filter);
    assert(seq![app].drop_last() =~= Seq::<KeyedAppView>::empty());
    reveal_with_fuel(Seq::filter, 2);
}

proof fn lemma_filter_none(
    high: Seq<KeyedAppView>,
    p: spec_fn(KeyedAppView) -> bool,
    at: int,
    before: Seq<KeyedAppView>,
    app: KeyedAppView,
)
    requires
        0 <= at <= before.len(),
        high == before.skip(at),
        p == with_key(sort_key(app)),
        forall|i: int|
            at <= i < before.len() ==> key_before(sort_key(app), sort_key(#[trigger] before[i])),
    ensures
        high.filter(p) == Seq::<KeyedAppView>::empty(),
    decreases high.len(),
{
    reveal(Seq::filter);
    if high.len() > 0 {
        let shorter = before.drop_last();
        assert(high.drop_last() =~= shorter.skip(at));
        assert forall|i: int| at <= i < shorter.len() implies key_before(
            sort_key(app),
            sort_key(#[trigger] shorter[i]),
        ) by {
            assert(shorter[i] == before[i]);
        }
        lemma_filter_none(high.drop_last(), p, at, shorter, app);
        assert(high.last() == before[before.len() - 1]);
        lemma_key_order(sort_key(app), sort_key(app), sort_key(app));
    }
}

/// `after` is `before` with `app` at position `at`, behind everything that does
/// not sort after it and before everything that does.
pub open spec fn inserted_at(
    before: Seq<KeyedAppView>,
    app: KeyedAppView,
    after: Seq<KeyedAppView>,
    at: int,
) -> bool {
    &&& 0 <= at <= before.len()
    &&& after == before.insert(at, app)
    &&& forall|i: int|
        0 <= i < at ==> !key_before(sort_key(app), sort_key(#[trigger] before[i]))
    &&& forall|i: int|
        at <= i < before.len() ==> key_before(sort_key(app), sort_key(#[trigger] before[i]))
}

pub open spec fn inserted(
    before: Seq<KeyedAppView>,
    app: KeyedAppView,
    after: Seq<KeyedAppView>,
) -> bool {
    exists|at: int| inserted_at(before, app, after, at)
}

/// One application's place in the order.
struct AppKey {
    name: Vec<char>,
    id: Vec<char>,
}

impl View for AppKey {
    type V = (Seq<char>, Seq<char>);

    closed spec fn view(&self) -> (Seq<char>, Seq<char>) {
        (self.name@, self.id@)
    }
}

impl AppKey {
    fn of(app: &KeyedApp) -> (out: AppKey)
        ensures
            out@ == sort_key(app@),
    {
        AppKey { name: chars_of(&app.name), id: chars_of(&app.app.id) }
    }

    fn before(&self, other: &AppKey) -> (yes: bool)
        ensures
            yes == key_before(self@, other@),
    {
        match rank(&self.name, &other.name) {
            Rank::Before => true,
            Rank::After => {
                proof {
                    lemma_key_order(self@, other@, self@);
                    lemma_sorts_before_irreflexive(self.name@);
                    if sorts_before(self.name@, other.name@) {
                        lemma_sorts_before_transitive(self.name@, other.name@, self.name@);
                    }
                }
                false
            },
            Rank::Same => {
                proof {
                    lemma_sorts_before_irreflexive(self.name@);
                }
                match rank(&self.id, &other.id) {
                    Rank::Before => true,
                    _ => false,
                }
            },
        }
    }
}

/// Applications in sorting order, each with its key.
struct AppSorter {
    apps: Vec<KeyedApp>,
    keys: Vec<AppKey>,
}

impl View for AppSorter {
    type V = Seq<KeyedAppView>;

    closed spec fn view(&self) -> Seq<KeyedAppView> {
        views(self.apps@)
    }
}

impl AppSorter {
    closed spec fn wf(&self) -> bool {
        &&& self.apps@.len() == self.keys@.len()
        &&& forall|i: int|
            0 <= i < self.apps@.len() ==> (#[trigger] self.keys@[i])@ == sort_key(self.apps@[i]@)
        &&& is_sorted(self@)
    }

    fn new() -> (out: AppSorter)
        ensures
            out.wf(),
            out@ == Seq::<KeyedAppView>::empty(),
    {
        let out = AppSorter { apps: Vec::new(), keys: Vec::new() };
        assert(out@ =~= Seq::<KeyedAppView>::empty());
        out
    }

    fn insert(&mut self, app: KeyedApp)
        requires
            old(self).wf(),
        ensures
            final(self).wf(),
            inserted(old(self)@, app@, final(self)@),
    {
        let key = AppKey::of(&app);
        let ghost before = self@;
        let ghost app_view = app@;
        let mut at: usize = self.keys.len();
        while at > 0 && key.before(&self.keys[at - 1])
            invariant
                at <= self.keys@.len(),
                self.wf(),
                before == self@,
                key@ == sort_key(app_view),
                forall|i: int|
                    at <= i < before.len() ==> key_before(
                        sort_key(app_view),
                        sort_key(#[trigger] before[i]),
                    ),
            decreases at,
        {
            proof {
                assert(self.keys@[at - 1]@ == sort_key(self.apps@[at - 1]@));
                assert(before[at - 1] == self.apps@[at - 1]@);
            }
            at = at - 1;
        }
        proof {
            if at > 0 {
                assert(self.keys@[at - 1]@ == sort_key(self.apps@[at - 1]@));
                assert(before[at - 1] == self.apps@[at - 1]@);
            }
            assert forall|i: int| 0 <= i < at implies !key_before(
                sort_key(app_view),
                sort_key(#[trigger] before[i]),
            ) by {
                if i < at - 1 {
                    let last = before[at - 1];
                    assert(!key_before(sort_key(last), sort_key(before[i])));
                    lemma_key_order(sort_key(app_view), sort_key(before[i]), sort_key(last));
                    lemma_key_order(sort_key(before[i]), sort_key(last), sort_key(last));
                }
            }
        }
        self.keys.insert(at, key);
        self.apps.insert(at, app);
        proof {
            assert(self@ =~= before.insert(at as int, app_view));
            assert(inserted_at(before, app_view, self@, at as int));
            let after = self@;
            assert forall|i: int| 0 <= i < self.apps@.len() implies (#[trigger] self.keys@[i])@
                == sort_key(self.apps@[i]@) by {
                if i < at {
                } else if i > at {
                    assert(self.keys@[i] == old(self).keys@[i - 1]);
                }
            }
            assert(is_sorting_of(before, before));
            lemma_sorting_of_more(before, before, app_view, after);
        }
    }
}

/// Sorts applications by their names and IDs. Those that sort alike stay in
/// their order.
pub fn sort_apps(apps: Vec<KeyedApp>) -> (out: Vec<KeyedApp>)
    ensures
        is_sorting_of(views(out@), views(apps@)),
{
    let ghost all = views(apps@);
    let mut rest = apps;
    let mut sorter = AppSorter::new();
    let ghost mut done: int = 0;
    proof {
        lemma_sorting_of_nothing();
        assert(all.take(0) =~= Seq::<KeyedAppView>::empty());
        assert(views(rest@) =~= all.skip(0));
    }
    while rest.len() > 0
        invariant
            0 <= done,
            done + rest@.len() == all.len(),
            views(rest@) == all.skip(done),
            sorter.wf(),
            is_sorting_of(sorter@, all.take(done)),
        decreases rest@.len(),
    {
        let ghost before = sorter@;
        let ghost waiting = rest@;
        let app = rest.remove(0);
        let ghost app_view = app@;
        sorter.insert(app);
        proof {
            assert(views(waiting)[0] == all[done]);
            assert(all.take(done).push(app_view) =~= all.take(done + 1));
            lemma_sorting_of_more(before, all.take(done), app_view, sorter@);
            assert(views(rest@) =~= all.skip(done + 1)) by {
                assert(views(rest@) =~= views(waiting).skip(1));
            }
            done = done + 1;
        }
    }
    assert(all.take(all.len() as int) =~= all);
    sorter.apps
}

/// The applications without what they were sorted by.
fn unkeyed(keyed: Vec<KeyedApp>) -> (out: Vec<InstalledApp>)
    ensures
        out@.len() == keyed@.len(),
        forall|i: int| 0 <= i < out@.len() ==> (#[trigger] out@[i])@ == keyed@[i]@.app,
{
    let mut out: Vec<InstalledApp> = Vec::new();
    let mut i: usize = 0;
    while i < keyed.len()
        invariant
            i <= keyed@.len(),
            out@.len() == i,
            forall|k: int| 0 <= k < i ==> (#[trigger] out@[k])@ == keyed@[k]@.app,
        decreases keyed.len() - i,
    {
        out.push(keyed[i].app.clone());
        i = i + 1;
    }
    out
}

/// A sorting holds nothing that was not there before.
proof fn lemma_sorting_adds_nothing(
    sorted: Seq<KeyedAppView>,
    apps: Seq<KeyedAppView>,
    i: int,
)
    requires
        is_sorting_of(sorted, apps),
        0 <= i < sorted.len(),
    ensures
        apps.contains(sorted[i]),
{
    let app = sorted[i];
    let p = with_key(sort_key(app));
    assert(p(app));
    sorted.lemma_filter_contains_rev(p, app);
    assert(sorted.filter(p) == apps.filter(p));
    assert(apps.filter(p).contains(app));
    lemma_filter_adds_nothing(apps, p, app);
}

proof fn lemma_filter_adds_nothing(
    apps: Seq<KeyedAppView>,
    p: spec_fn(KeyedAppView) -> bool,
    app: KeyedAppView,
)
    requires
        apps.filter(p).contains(app),
    ensures
        apps.contains(app),
    decreases apps.len(),
{
    reveal(Seq::filter);
    if apps.len() > 0 {
        let less = apps.drop_last();
        let kept = less.filter(p);
        if app == apps.last() {
            assert(apps[apps.len() - 1] == app);
        } else {
            let k = choose|k: int| 0 <= k < apps.filter(p).len() && apps.filter(p)[k] == app;
            assert(kept[k] == app);
            lemma_filter_adds_nothing(less, p, app);
            let i = choose|i: int| 0 <= i < less.len() && less[i] == app;
            assert(apps[i] == app);
        }
    }
}

// -------------------------------------------------------------- remote rows

/// The trimmed items of a list separated by commas.
pub open spec fn options_in(field: Seq<char>) -> Seq<Seq<char>> {
    split(field, ',').map_values(|option: Seq<char>| trim(option))
}

/// The remote that one line of output describes, if it has the expected shape.
pub open spec fn remote_row(line: Seq<char>) -> Option<RemoteView> {
    let fields = split(line, '\t');
    if trim(line).len() == 0 || fields.len() < 4 {
        None
    } else {
        Some(
            RemoteView {
                name: trim(fields[0]),
                title: trim(fields[1]),
                url: trim(fields[2]),
                installation: if options_in(fields[3]).contains("user"@) {
                    InstallationView::User
                } else {
                    InstallationView::System
                },
                disabled: options_in(fields[3]).contains("disabled"@),
            },
        )
    }
}

/// The remotes that `ls` describe, in order.
pub open spec fn remote_rows(ls: Seq<Seq<char>>) -> Seq<RemoteView>
    decreases ls.len(),
{
    if ls.len() == 0 {
        Seq::empty()
    } else {
        let before = remote_rows(ls.drop_last());
        match remote_row(ls.last()) {
            Some(remote) => before.push(remote),
            None => before,
        }
    }
}

/// True if `option` is among the items of a list separated by commas.
fn has_option(field: &Vec<char>, option: &str) -> (yes: bool)
    ensures
        yes == options_in(field@).contains(option@),
{
    let items = split_on(field, ',');
    let ghost all = options_in(field@);
    let mut i: usize = 0;
    while i < items.len()
        invariant
            i <= items@.len(),
            views(items@) == split(field@, ','),
            all == options_in(field@),
            forall|k: int| 0 <= k < i ==> #[trigger] all[k] != option@,
        decreases items.len() - i,
    {
        let item = text_of(&trimmed(&items[i]));
        assert(all[i as int] == trim(items@[i as int]@));
        if same_text(&item, option) {
            assert(all.contains(option@)) by {
                assert(all[i as int] == option@);
            }
            return true;
        }
        i = i + 1;
    }
    false
}

fn parse_remote_row(line: &Vec<char>) -> (out: Option<Remote>)
    ensures
        out is Some <==> remote_row(line@) is Some,
        out matches Some(remote) ==> remote_row(line@) == Some(remote@),
{
    if trimmed(line).len() == 0 {
        return None;
    }
    let fields = split_on(line, '\t');
    let ghost fs = split(line@, '\t');
    assert(fields@.len() == fs.len());
    if fields.len() < 4 {
        return None;
    }
    assert(forall|i: int| 0 <= i < 4 ==> #[trigger] fs[i] == fields@[i]@);
    let installation = if has_option(&fields[3], "user") {
        Installation::User
    } else {
        Installation::System
    };
    Some(
        Remote {
            name: text_of(&trimmed(&fields[0])),
            title: text_of(&trimmed(&fields[1])),
            url: text_of(&trimmed(&fields[2])),
            installation,
            disabled: has_option(&fields[3], "disabled"),
        },
    )
}

// --------------------------------------------------------------------- laws

/// Each field of a remote is what stands in its column: name, title, address and
/// options, without the white space around them. It is the user's if its options say
/// so, and disabled if they say that; else it is the system's, and in use. A row with
/// fewer columns, or with nothing in them, is left out.
pub proof fn lemma_remote_fields_come_from_their_columns(values: Seq<Seq<char>>)
    requires
        fits_in_row(values),
        values.len() > 0,
    ensures
        trim(values[0]).len() > 0 ==> (remote_row(table_row(values)) is Some <==> values.len()
            >= 4),
        remote_row(table_row(values)) matches Some(remote) ==> {
            &&& remote.name == trim(values[0])
            &&& remote.title == trim(values[1])
            &&& remote.url == trim(values[2])
            &&& remote.installation is User || remote.installation is System
            &&& remote.installation is User <==> options_in(values[3]).contains("user"@)
            &&& remote.disabled <==> options_in(values[3]).contains("disabled"@)
        },
{
    let line = table_row(values);
    assert forall|k: int, i: int|
        0 <= k < values.len() && 0 <= i < values[k].len() implies #[trigger] values[k][i]
        != '\t' by {}
    lemma_split_undoes_joining(values, '\t');
    lemma_trim_takes_off_space(line);
    lemma_trim_takes_off_space(values[0]);
    if trim(line).len() == 0 {
        lemma_row_starts_with_first(values);
        assert forall|i: int| 0 <= i < values[0].len() implies is_space(
            #[trigger] values[0][i],
        ) by {
            assert(values[0][i] == line[i]);
        }
    }
}

/// Options are separated by commas.
pub proof fn lemma_options_one_by_one(options: Seq<Seq<char>>, option: Seq<char>)
    requires
        options.len() > 0,
        forall|k: int, i: int|
            0 <= k < options.len() && 0 <= i < options[k].len() ==> #[trigger] options[k][i] != ',',
    ensures
        options_in(joined(options, seq![','])).contains(option) <==> exists|k: int|
            0 <= k < options.len() && trim(#[trigger] options[k]) == option,
{
    lemma_split_undoes_joining(options, ',');
    let all = options_in(joined(options, seq![',']));
    assert(all.len() == options.len());
    if all.contains(option) {
        let k = choose|k: int| 0 <= k < all.len() && all[k] == option;
        assert(trim(options[k]) == option);
    }
    if exists|k: int| 0 <= k < options.len() && trim(#[trigger] options[k]) == option {
        let k = choose|k: int| 0 <= k < options.len() && trim(#[trigger] options[k]) == option;
        assert(all[k] == option);
    }
}

/// Rows that describe remotes are listed one for one and in their order, and other
/// rows are left out.
pub proof fn lemma_remote_rows_one_by_one(ls: Seq<Seq<char>>, line: Seq<char>)
    ensures
        remote_row(line) matches Some(remote) ==> remote_rows(ls.push(line)) == remote_rows(
            ls,
        ).push(remote),
        remote_row(line) is None ==> remote_rows(ls.push(line)) == remote_rows(ls),
        remote_rows(Seq::empty()).len() == 0,
{
    assert(ls.push(line).drop_last() =~= ls);
}

/// The list is in the order of the names that are shown, whatever their case, and of
/// the IDs among those of one name.
pub proof fn lemma_list_is_sorted(
    listed: Seq<InstalledAppView>,
    apps: Seq<InstalledAppView>,
    i: int,
    j: int,
)
    requires
        is_sorting_of(by_shown_name(listed), by_shown_name(apps)),
        0 <= i < j < listed.len(),
    ensures
        ({
            let a = lowercase(
                if listed[i].name.len() == 0 {
                    listed[i].id
                } else {
                    listed[i].name
                },
            );
            let b = lowercase(
                if listed[j].name.len() == 0 {
                    listed[j].id
                } else {
                    listed[j].name
                },
            );
            &&& !sorts_before(b, a)
            &&& a == b ==> !sorts_before(listed[j].id, listed[i].id)
        }),
{
    let keyed = by_shown_name(listed);
    assert(!key_before(sort_key(keyed[j]), sort_key(keyed[i])));
}

/// A sorted list holds each application that was there, and none besides.
pub proof fn lemma_list_holds_what_was_there(
    listed: Seq<InstalledAppView>,
    apps: Seq<InstalledAppView>,
    app: InstalledAppView,
)
    requires
        is_sorting_of(by_shown_name(listed), by_shown_name(apps)),
    ensures
        listed.contains(app) <==> apps.contains(app),
{
    if listed.contains(app) {
        lemma_listed_was_there(listed, apps, app);
    }
    if apps.contains(app) {
        let there = by_shown_name(apps);
        let sorted = by_shown_name(listed);
        let k = choose|k: int| 0 <= k < apps.len() && apps[k] == app;
        let keyed = there[k];
        let p = with_key(sort_key(keyed));
        assert(p(keyed));
        there.lemma_filter_contains_rev(p, keyed);
        assert(sorted.filter(p) == there.filter(p));
        lemma_filter_adds_nothing(sorted, p, keyed);
        let i = choose|i: int| 0 <= i < sorted.len() && sorted[i] == keyed;
        assert(listed[i] == app);
    }
}

proof fn lemma_listed_was_there(
    listed: Seq<InstalledAppView>,
    apps: Seq<InstalledAppView>,
    app: InstalledAppView,
)
    requires
        is_sorting_of(by_shown_name(listed), by_shown_name(apps)),
        listed.contains(app),
    ensures
        apps.contains(app),
{
    let i = choose|i: int| 0 <= i < listed.len() && listed[i] == app;
    lemma_sorting_adds_nothing(by_shown_name(listed), by_shown_name(apps), i);
    let there = by_shown_name(apps);
    let k = choose|k: int| 0 <= k < there.len() && there[k] == by_shown_name(listed)[i];
    assert(apps[k] == app);
}

/// The version is what stands behind the program's name, or all of it where no name
/// is printed.
pub proof fn lemma_version_stands_behind_the_name(version: Seq<char>)
    requires
        version.len() > 0,
        !is_space(version[0]),
        !is_space(version.last()),
    ensures
        version_in("Flatpak "@ + version) == version,
        version_in(("Flatpak "@ + version).push('\n')) == version,
        version[0] != 'F' ==> version_in(version) == version,
{
    reveal_strlit("Flatpak ");
    let label = "Flatpak "@;
    let text = label + version;
    assert(text[0] == 'F');
    assert(text.last() == version.last());
    lemma_trim_plain(text);
    lemma_trim_plain(version);
    assert(text.take(label.len() as int) =~= label);
    assert(text.skip(label.len() as int) =~= version);
    let ended = text.push('\n');
    assert(ended.drop_last() =~= text);
    assert(trim(ended) == text) by {
        assert(is_space('\n'));
        assert(trim_start(ended) == ended);
        assert(trim_end(ended) == trim_end(text));
    }
    if version[0] != 'F' && version.len() >= label.len() {
        assert(version.take(label.len() as int)[0] == version[0]);
    }
}

/// It is the last line with something on it that tells why an installation failed.
pub proof fn lemma_last_line_tells_why(ls: Seq<Seq<char>>, status: Seq<char>, k: int)
    requires
        -1 <= k < ls.len(),
        forall|i: int| k < i < ls.len() ==> trim(#[trigger] ls[i]).len() == 0,
        k >= 0 ==> trim(ls[k]).len() > 0,
    ensures
        k >= 0 ==> last_complaint(ls, status) == ls[k],
        k < 0 ==> last_complaint(ls, status) == "flatpak install exited with "@ + status,
    decreases ls.len(),
{
    if ls.len() > 0 && k < ls.len() - 1 {
        let less = ls.drop_last();
        assert(trim(ls[ls.len() - 1]).len() == 0);
        assert forall|i: int| k < i < less.len() implies trim(#[trigger] less[i]).len() == 0 by {
            assert(less[i] == ls[i]);
        }
        if k >= 0 {
            assert(less[k] == ls[k]);
        }
        lemma_last_line_tells_why(less, status, k);
    }
}

/// How `flatpak` is reached: as the user says, if anything is said; from a sandbox
/// through `flatpak-spawn`; from a container through what is there to leave it; and
/// directly everywhere else.
pub proof fn lemma_how_flatpak_is_reached(probe: HostProbe)
    ensures
        ({
            let said = probe.custom_command is Some && words(probe.custom_command->Some_0@).len()
                > 0;
            let contained = probe.container_marker || probe.container_variable;
            &&& said ==> command_prefix(probe) == words(probe.custom_command->Some_0@)
            &&& !said && probe.inside_flatpak ==> command_prefix(probe) == seq![
                "flatpak-spawn"@,
                "--host"@,
                "flatpak"@,
            ]
            &&& !said && !probe.inside_flatpak && contained && probe.has_host_exec
                ==> command_prefix(probe) == seq!["distrobox-host-exec"@, "flatpak"@]
            &&& !said && !probe.inside_flatpak && contained && !probe.has_host_exec
                && probe.has_spawn ==> command_prefix(probe) == seq![
                "flatpak-spawn"@,
                "--host"@,
                "flatpak"@,
            ]
            &&& !said && !probe.inside_flatpak && (!contained || (!probe.has_host_exec
                && !probe.has_spawn)) ==> command_prefix(probe) == seq!["flatpak"@]
        }),
{
}

/// True if all of `values` stand in a row as they are: ten of them, none empty, none a
/// `-`, and none with white space around it.
pub open spec fn is_full_row(values: Seq<Seq<char>>) -> bool {
    &&& fits_in_row(values)
    &&& values.len() == 10
    &&& forall|k: int|
        0 <= k < 10 ==> (#[trigger] values[k]).len() > 0 && values[k] != "-"@ && !is_space(
            values[k][0],
        ) && !is_space(values[k].last())
}

/// A list of applications is read back from the table it was printed as: one for each
/// row, in their order, with the values of its columns.
pub proof fn lemma_listed_applications_are_read(rows: Seq<Seq<Seq<char>>>, r: int)
    requires
        forall|n: int| 0 <= n < rows.len() ==> is_full_row(#[trigger] rows[n]),
        0 <= r < rows.len(),
    ensures
        ({
            let apps = app_rows(lines(table_text(rows)));
            let app = apps[r];
            &&& apps.len() == rows.len()
            &&& app.id == rows[r][0]
            &&& app.name == rows[r][1]
            &&& app.version == rows[r][2]
            &&& app.branch == rows[r][3]
            &&& app.arch == rows[r][4]
            &&& app.origin == rows[r][5]
            &&& rows[r][6] == "user"@ <==> app.installation == InstallationView::User
            &&& rows[r][6] == "system"@ <==> app.installation == InstallationView::System
            &&& app.reference == rows[r][7]
            &&& app.commit == rows[r][8]
            &&& app.installed_size == parsed_size(rows[r][9])
        }),
{
    assert forall|n: int| 0 <= n < rows.len() implies fits_in_row(#[trigger] rows[n]) by {
        assert(is_full_row(rows[n]));
    }
    lemma_table_is_read_by_rows(rows);
    let ls = lines(table_text(rows));
    assert forall|n: int| 0 <= n < ls.len() implies app_row(#[trigger] ls[n]) is Some by {
        assert(is_full_row(rows[n]));
        lemma_app_fields_come_from_their_columns(rows[n]);
    }
    lemma_app_rows_one_by_one(ls, Seq::empty());
    assert(is_full_row(rows[r]));
    lemma_app_fields_come_from_their_columns(rows[r]);
    assert(ls[r] == table_row(rows[r]));
    assert(app_row(ls[r]) == Some(app_rows(ls)[r]));
}

/// A command that fails tells why in its own words, without the white space around them,
/// and if it has none, which command it was and how it ended.
pub proof fn lemma_complaints_are_told(
    args: Seq<Seq<char>>,
    status: Seq<char>,
    stderr: Seq<char>,
)
    ensures
        trim(stderr).len() > 0 ==> complaint(args, status, stderr) == trim(stderr),
        trim(stderr).len() == 0 ==> complaint(args, status, stderr) == "flatpak "@ + joined(
            args,
            " "@,
        ) + " exited with "@ + status,
{
}

/// Whatever the order of the columns that are asked for, a field is read from the column
/// of its name: if the `n`th column is the origin, the origin is the `n`th value, and so
/// with all others.
pub proof fn lemma_columns_are_read_as_asked_for(values: Seq<Seq<char>>, n: int)
    requires
        is_full_row(values),
        0 <= n < 10,
    ensures
        split(app_columns(), ',').len() == 10,
        ({
            let column = split(app_columns(), ',')[n];
            let app = app_row(table_row(values))->Some_0;
            &&& app_row(table_row(values)) is Some
            &&& column == "--columns=application:f"@ ==> app.id == values[n]
            &&& column == "name:f"@ ==> app.name == values[n]
            &&& column == "version:f"@ ==> app.version == values[n]
            &&& column == "branch:f"@ ==> app.branch == values[n]
            &&& column == "arch:f"@ ==> app.arch == values[n]
            &&& column == "origin:f"@ ==> app.origin == values[n]
            &&& column == "installation:f"@ ==> app.installation == installation_of(values[n])
            &&& column == "ref:f"@ ==> app.reference == values[n]
            &&& column == "active:f"@ ==> app.commit == values[n]
            &&& column == "size:f"@ ==> app.installed_size == parsed_size(values[n])
        }),
{
    lemma_app_columns();
    lemma_app_fields_come_from_their_columns(values);
    lemma_any_app_row(values);
    reveal_strlit("--columns=application:f");
    reveal_strlit("name:f");
    reveal_strlit("version:f");
    reveal_strlit("branch:f");
    reveal_strlit("arch:f");
    reveal_strlit("origin:f");
    reveal_strlit("installation:f");
    reveal_strlit("ref:f");
    reveal_strlit("active:f");
    reveal_strlit("size:f");
    assert("--columns=application:f"@.len() == 23);
    assert("name:f"@.len() == 6 && "name:f"@[0] == 'n');
    assert("version:f"@.len() == 9);
    assert("branch:f"@.len() == 8 && "branch:f"@[0] == 'b');
    assert("arch:f"@.len() == 6 && "arch:f"@[0] == 'a');
    assert("origin:f"@.len() == 8 && "origin:f"@[0] == 'o');
    assert("installation:f"@.len() == 14);
    assert("ref:f"@.len() == 5);
    assert("active:f"@.len() == 8 && "active:f"@[0] == 'a');
    assert("size:f"@.len() == 6 && "size:f"@[0] == 's');
}

/// What [`Flatpak::list_apps`] makes of a table holds, for each of its rows, the
/// application with the values of that row.
pub proof fn lemma_printed_applications_are_listed(
    output: Result<String, Failure>,
    out: Result<Vec<InstalledApp>, Failure>,
    rows: Seq<Seq<Seq<char>>>,
    r: int,
)
    requires
        call_ensures(Flatpak::list_apps, (output,), out),
        output matches Ok(raw) && raw@ == table_text(rows),
        forall|n: int| 0 <= n < rows.len() ==> is_full_row(#[trigger] rows[n]),
        0 <= r < rows.len(),
    ensures
        out matches Ok(apps) && exists|i: int|
            0 <= i < apps@.len() && {
                let app = (#[trigger] apps@[i])@;
                &&& app.id == rows[r][0]
                &&& app.name == rows[r][1]
                &&& app.version == rows[r][2]
                &&& app.branch == rows[r][3]
                &&& app.arch == rows[r][4]
                &&& app.origin == rows[r][5]
                &&& app.reference == rows[r][7]
                &&& app.commit == rows[r][8]
                &&& app.installed_size == parsed_size(rows[r][9])
            },
{
    let apps = out->Ok_0;
    let listed = views(apps@);
    let read = app_rows(lines(table_text(rows)));
    lemma_listed_applications_are_read(rows, r);
    let app = read[r];
    assert(read.contains(app));
    lemma_list_holds_what_was_there(listed, read, app);
    let i = choose|i: int| 0 <= i < listed.len() && listed[i] == app;
    assert(apps@[i]@ == app);
}

/// Installing names the remote and the ref that were asked for, and the installation they
/// go into, and asks nothing of the user; so does adding a remote.
pub proof fn lemma_arguments_say_what_was_asked_for(
    name: &str,
    value: &str,
    installation: &Installation,
    install: Vec<String>,
    add: Vec<String>,
)
    requires
        call_ensures(Flatpak::install_args, (name, value, installation), install),
        call_ensures(Flatpak::add_remote_args, (name, value, installation), add),
    ensures
        install@.len() == 6,
        install@[0]@ == "install"@,
        views(install@).contains("--noninteractive"@),
        views(install@).contains(scope_flag(installation@)),
        install@[4]@ == name@,
        install@[5]@ == value@,
        add@.len() == 5,
        add@[0]@ == "remote-add"@,
        views(add@).contains(scope_flag(installation@)),
        add@[3]@ == name@,
        add@[4]@ == value@,
{
    let i = views(install@);
    let a = views(add@);
    assert(i.len() == 6 && a.len() == 5);
    assert(i[0] == install@[0]@ && i[4] == install@[4]@ && i[5] == install@[5]@);
    assert(a[0] == add@[0]@ && a[3] == add@[3]@ && a[4] == add@[4]@);
    assert(i[1] == "--noninteractive"@);
    assert(i[3] == scope_flag(installation@));
    assert(a[2] == scope_flag(installation@));
}

} // verus!
