//! Talking to the `flatpak` command line tool.

use flatbak::error::{is_cancellation, Failure};
use flatbak::flatpak::cli::{sort_apps, HostProbe, KeyedApp, Watch};
use flatbak::flatpak::{Flatpak, InstalledApp, Installation, Remote};

fn probe() -> HostProbe {
    HostProbe {
        custom_command: None,
        inside_flatpak: false,
        container_marker: false,
        container_variable: false,
        has_host_exec: false,
        has_spawn: false,
    }
}

#[test]
fn the_host_is_reached_from_wherever() {
    let line = |probe: HostProbe| Flatpak::detect(&probe).command_line();
    assert_eq!(line(probe()), "flatpak");
    let custom = |text: &str| HostProbe { custom_command: Some(text.to_owned()), ..probe() };
    assert_eq!(line(custom(" sudo\t flatpak ")), "sudo flatpak");
    assert_eq!(line(custom("  ")), "flatpak");
    assert_eq!(
        line(HostProbe { inside_flatpak: true, ..probe() }),
        "flatpak-spawn --host flatpak"
    );
    assert_eq!(
        line(HostProbe { container_marker: true, has_host_exec: true, has_spawn: true, ..probe() }),
        "distrobox-host-exec flatpak"
    );
    assert_eq!(
        line(HostProbe { container_variable: true, has_spawn: true, ..probe() }),
        "flatpak-spawn --host flatpak"
    );
    assert_eq!(line(HostProbe { container_variable: true, ..probe() }), "flatpak");
    // Outside a container the helpers do not matter.
    assert_eq!(line(HostProbe { has_host_exec: true, has_spawn: true, ..probe() }), "flatpak");
}

#[test]
fn commands_start_with_the_prefix() {
    let flatpak = Flatpak::detect(&HostProbe { inside_flatpak: true, ..probe() });
    assert_eq!(
        flatpak.command(&Flatpak::version_args()),
        ["flatpak-spawn", "--host", "flatpak", "--version"]
    );
    assert_eq!(Flatpak::list_apps_args()[..2], ["list", "--app"]);
    assert!(Flatpak::list_apps_args()[2].starts_with("--columns=application:f,name:f,"));
    assert_eq!(
        Flatpak::list_remotes_args(),
        ["remotes", "--columns=name:f,title:f,url:f,options:f"]
    );
    assert_eq!(
        Flatpak::add_remote_args("n", "u", &Installation::Named("x".to_owned())),
        ["remote-add", "--if-not-exists", "--installation=x", "n", "u"]
    );
    assert_eq!(
        Flatpak::install_args("r", "app/x", &Installation::User),
        ["install", "--noninteractive", "--or-update", "--user", "r", "app/x"]
    );
}

#[test]
fn output_and_complaints() {
    let args = Flatpak::version_args();
    assert_eq!(Flatpak::run(&args, true, "exit status: 0", b"out\xff", b"").unwrap(), "out\u{fffd}");
    let failed = |stderr: &[u8]| {
        Flatpak::run(&args, false, "exit status: 1", b"out", stderr).unwrap_err().message()
    };
    assert_eq!(failed(b" error: no\n"), "error: no");
    assert_eq!(failed(b" \n"), "flatpak --version exited with exit status: 1");
    assert_eq!(
        Flatpak::spawn_failure(true, "x".to_owned()).message(),
        "The flatpak command was not found. Install Flatpak to use FlatBak."
    );
    assert_eq!(
        Flatpak::spawn_failure(false, "x".to_owned()).message(),
        "The flatpak command failed to run: x"
    );
}

#[test]
fn versions_lose_their_label() {
    assert_eq!(Flatpak::version(Ok("Flatpak 1.18.2\n".to_owned())).unwrap(), "1.18.2");
    assert_eq!(Flatpak::version(Ok(" 1.18.2 ".to_owned())).unwrap(), "1.18.2");
    assert_eq!(Flatpak::version(Ok("Flatpak".to_owned())).unwrap(), "Flatpak");
    assert!(Flatpak::version(Err(Failure::Message("no".to_owned()))).is_err());
}

fn ids(raw: &str) -> Vec<String> {
    Flatpak::list_apps(Ok(raw.to_owned()))
        .unwrap()
        .into_iter()
        .map(|app| app.id)
        .collect()
}

#[test]
fn application_rows_are_parsed_and_sorted() {
    let raw = "org.z.Z\tzebra\t1\tstable\tx86_64\tflathub\tuser\tapp/z\tc1\t1.4 GB\r\n\
               \n\
               too\tfew\n\
               -\tx\t1\ts\ta\to\tuser\tr\tc\t1 B\n\
               org.a.A\t-\t-\tstable\tx86_64\t-\t\tapp/a\tc2\t?\textra\n\
               org.b.B\tApple\t2\tbeta\taarch64\tgnome\tcustom\tapp/b\tc3\t13 MB\n";
    let apps = Flatpak::list_apps(Ok(raw.to_owned())).unwrap();
    let names: Vec<&str> = apps.iter().map(InstalledApp::display_name).collect();
    assert_eq!(names, ["Apple", "org.a.A", "zebra"]);
    let zebra = &apps[2];
    assert_eq!(zebra.id, "org.z.Z");
    assert_eq!(zebra.installation, Installation::User);
    assert_eq!(zebra.installed_size, Some(1_400_000_000));
    assert_eq!(zebra.commit, "c1");
    let a = &apps[1];
    assert_eq!(a.name, "");
    assert_eq!(a.origin, "");
    assert!(a.is_sideloaded());
    assert_eq!(a.installation, Installation::System);
    assert_eq!(a.installed_size, None);
    let b = &apps[0];
    assert_eq!(b.installation, Installation::Named("custom".to_owned()));
    assert_eq!(b.branch, "beta");
    assert_eq!(b.arch, "aarch64");
    assert_eq!(b.key(), "app/b@custom");
}

#[test]
fn sorting_ignores_case_and_is_stable() {
    let row = |id: &str, name: &str, commit: &str| {
        format!("{id}\t{name}\t1\ts\ta\to\tuser\tr\t{commit}\t1 B\n")
    };
    let raw = [
        row("d", "beta", "1"),
        row("c", "Alpha", "2"),
        row("b", "ALPHA", "3"),
        row("b", "alpha", "4"),
        row("a", "\u{c4}rger", "5"),
        row("e", "Zulu", "6"),
    ]
    .concat();
    let apps = Flatpak::list_apps(Ok(raw)).unwrap();
    let order: Vec<&str> = apps.iter().map(|app| app.commit.as_str()).collect();
    assert_eq!(order, ["3", "4", "2", "1", "6", "5"]);
    assert!(ids("").is_empty());
}

#[test]
fn failures_say_what_was_being_done() {
    let fail = || Err(Failure::Message("boom".to_owned()));
    let error = Flatpak::list_apps(fail()).unwrap_err();
    assert_eq!(error.message(), "Could not list installed Flatpak applications");
    assert_eq!(error.chain(), "Could not list installed Flatpak applications: boom");
    let error = Flatpak::list_remotes(fail()).unwrap_err();
    assert_eq!(error.chain(), "Could not list Flatpak remotes: boom");
    let error = Flatpak::add_remote("flathub", fail()).unwrap_err();
    assert_eq!(
        error.chain(),
        "Could not add the remote \u{201c}flathub\u{201d}: boom"
    );
    assert!(Flatpak::add_remote("flathub", Ok(String::new())).is_ok());
}

#[test]
fn remote_rows_are_parsed() {
    let raw = "flathub\tFlathub\thttps://x/\tsystem,filtered\n\
               \t\n\
               beta\t-\thttps://y/\t user , disabled \n\
               short\tx\ty\n";
    let remotes = Flatpak::list_remotes(Ok(raw.to_owned())).unwrap();
    assert_eq!(
        remotes,
        [
            Remote {
                name: "flathub".to_owned(),
                title: "Flathub".to_owned(),
                url: "https://x/".to_owned(),
                installation: Installation::System,
                disabled: false,
            },
            Remote {
                name: "beta".to_owned(),
                title: "-".to_owned(),
                url: "https://y/".to_owned(),
                installation: Installation::User,
                disabled: true,
            },
        ]
    );
    assert_eq!(remotes[0].display_title(), "Flathub");
    assert_eq!(remotes[1].display_title(), "beta");
}

#[test]
fn installations_end_in_one_of_three_ways() {
    let lines = vec!["first".to_owned(), "error: last ".to_owned(), "  ".to_owned()];
    assert!(Flatpak::install(false, true, "s", &lines).is_ok());
    let cancelled = Flatpak::install(true, true, "s", &lines).unwrap_err();
    assert!(is_cancellation(&cancelled));
    assert_eq!(
        Flatpak::install(false, false, "exit status: 1", &lines).unwrap_err().message(),
        "error: last "
    );
    assert_eq!(
        Flatpak::install(false, false, "exit status: 1", &Vec::new()).unwrap_err().message(),
        "flatpak install exited with exit status: 1"
    );
    assert_eq!(Flatpak::install_output("  Installing 1/2 "), Some("Installing 1/2".to_owned()));
    assert_eq!(Flatpak::install_output(" \t"), None);
    assert_eq!(Flatpak::watch(false, false), Watch::Wait);
    assert_eq!(Flatpak::watch(false, true), Watch::Stop);
    assert_eq!(Flatpak::watch(true, true), Watch::Kill);
}

#[test]
fn installation_names_round_trip() {
    for text in ["user", "system", "", " user ", "extra", "\tmy disk\n"] {
        let parsed = Installation::parse(text);
        assert_eq!(Installation::parse(parsed.as_str()), parsed);
        assert_eq!(Installation::from(text.to_owned()), parsed);
        let name: String = parsed.clone().into();
        assert_eq!(name, parsed.as_str());
    }
    assert_eq!(Installation::parse(" x ").as_str(), "x");
    assert_eq!(Installation::User.label(), "User");
    assert_eq!(Installation::System.label(), "System");
    assert_eq!(Installation::Named("x".to_owned()).label(), "x");
    assert_eq!(Installation::System.cli_args(), ["--system"]);
    assert!(!Installation::User.needs_authorisation());
    assert!(Installation::System.needs_authorisation());
    assert!(Installation::Named("x".to_owned()).needs_authorisation());
    assert!(Installation::User.same_as(&Installation::User));
    assert!(!Installation::User.same_as(&Installation::Named("user".to_owned())));
}

#[test]
fn keys_tell_installations_apart() {
    let raw = "a\tA\t1\ts\tx\to\tuser\tapp/a\tc\t1 B\n\
               a\tA\t1\ts\tx\to\tsystem\tapp/a\tc\t1 B\n";
    let apps = Flatpak::list_apps(Ok(raw.to_owned())).unwrap();
    assert_eq!(apps[0].key(), "app/a@user");
    assert_eq!(apps[1].key(), "app/a@system");
}

fn keyed(name: &str, id: &str, branch: &str) -> KeyedApp {
    KeyedApp {
        name: name.to_owned(),
        app: InstalledApp {
            id: id.to_owned(),
            name: String::new(),
            version: String::new(),
            branch: branch.to_owned(),
            arch: String::new(),
            origin: String::new(),
            installation: Installation::User,
            reference: String::new(),
            commit: String::new(),
            installed_size: None,
        },
    }
}

#[test]
fn applications_are_sorted_by_their_keys() {
    let sorted = sort_apps(vec![
        keyed("zebra", "org.z", "1"),
        keyed("apple", "org.b", "2"),
        keyed("apple", "org.a", "3"),
        keyed("apple", "org.b", "4"),
        keyed("", "org.q", "5"),
        keyed("apples", "org.a", "6"),
    ]);
    let order: Vec<&str> = sorted.iter().map(|item| item.app.branch.as_str()).collect();
    // Two that sort alike stay in their order.
    assert_eq!(order, ["5", "3", "2", "4", "6", "1"]);
    assert!(sort_apps(Vec::new()).is_empty());
}

#[test]
fn keys_tell_references_and_installations_apart() {
    let app = |reference: &str, installation: &str| {
        let mut app = keyed("", "", "").app;
        app.reference = reference.to_owned();
        app.installation = Installation::parse(installation);
        app
    };
    assert_eq!(app("app/a/x/y", "at@home").key(), "app/a/x/y@at@home");
    assert_ne!(app("app/a/x/y", "user").key(), app("app/a/x/z", "user").key());
    assert_ne!(app("app/a/x/y", "user").key(), app("app/a/x/y", "system").key());
    assert_eq!(app("app/a/x/y", "user").key(), app("app/a/x/y", " user ").key());
}
