use hptp::cli::RuntimeType;
use hptp::startup::{remove_startup, setup_startup, systemd_service_name, Daemon};

#[test]
fn runtime_type_parses_case_insensitively() {
    assert!(matches!(
        RuntimeType::parse("single-threaded"),
        Ok(RuntimeType::SingleThread)
    ));
    assert!(matches!(
        RuntimeType::parse("MULTI-THREADED"),
        Ok(RuntimeType::MultiThreaded)
    ));
    assert!(RuntimeType::parse("threaded").is_err());
    assert_eq!(RuntimeType::SingleThread.as_str(), "single-threaded");
    assert_eq!(RuntimeType::MultiThreaded.as_str(), "multi-threaded");
}

#[test]
fn daemon_parses_case_insensitively() {
    assert!(matches!(Daemon::parse("systemd"), Ok(Daemon::SystemD)));
    assert!(matches!(Daemon::parse("OpenRC"), Ok(Daemon::OpenRC)));
    assert!(Daemon::parse("launchd").is_err());
}

#[test]
fn systemd_removal_plan() {
    let plan = remove_startup(Daemon::SystemD);
    assert_eq!(plan.pre.len(), 2);
    assert_eq!(plan.pre[0].program, "systemctl");
    assert_eq!(plan.pre[0].args, vec!["stop", "xyz.vrtgs.hptp.service"]);
    assert_eq!(plan.pre[1].program, "systemctl");
    assert_eq!(
        plan.pre[1].args,
        vec!["disable", "/etc/systemd/system/xyz.vrtgs.hptp.service"]
    );
    assert_eq!(plan.remove_path, "/etc/systemd/system/xyz.vrtgs.hptp.service");
    assert_eq!(plan.post.len(), 1);
    assert_eq!(plan.post[0].program, "systemctl");
    assert_eq!(plan.post[0].args, vec!["daemon-reload"]);
}

#[test]
fn openrc_removal_plan() {
    let plan = remove_startup(Daemon::OpenRC);
    assert_eq!(plan.pre.len(), 2);
    assert_eq!(plan.pre[0].program, "rc-service");
    assert_eq!(plan.pre[0].args, vec!["xyz.vrtgs.hptp", "stop"]);
    assert_eq!(plan.pre[1].program, "rc-update");
    assert_eq!(plan.pre[1].args, vec!["delete", "xyz.vrtgs.hptp", "default"]);
    assert_eq!(plan.remove_path, "/etc/init.d/xyz.vrtgs.hptp");
    assert!(plan.post.is_empty());
}

#[test]
fn setup_plans_name_the_service_files() {
    let plan = setup_startup(Daemon::SystemD);
    assert_eq!(plan.service_path, "/etc/systemd/system/xyz.vrtgs.hptp.service");
    assert_eq!(plan.file_mode, 0o644);
    assert_eq!(plan.commands.len(), 3);
    assert_eq!(plan.commands[0].args, vec!["daemon-reload"]);
    assert_eq!(
        plan.commands[1].args,
        vec!["enable", "--now", "/etc/systemd/system/xyz.vrtgs.hptp.service"]
    );
    assert_eq!(plan.commands[2].args, vec!["status", "xyz.vrtgs.hptp.service"]);

    let plan = setup_startup(Daemon::OpenRC);
    assert_eq!(plan.service_path, "/etc/init.d/xyz.vrtgs.hptp");
    assert_eq!(plan.file_mode, 0o755);
    assert_eq!(plan.commands.len(), 2);
    assert_eq!(plan.commands[0].program, "rc-update");
    assert_eq!(plan.commands[1].program, "rc-service");
}

#[test]
fn service_name_is_the_unit_file_name() {
    assert_eq!(systemd_service_name(), "xyz.vrtgs.hptp.service");
}
