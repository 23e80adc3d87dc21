//! Service-manager integration as data: which daemon is addressed, where
//! its unit file lives, and which commands install or remove the service.
//! Writing the file and running the commands is the caller's work; this
//! module only decides what they should be.

use vstd::prelude::*;

use crate::text::{lower_seq, str_eq_ignore_ascii_case};

verus! {

/// The service managers that can start the proxy at boot.
#[derive(Clone, Copy, PartialEq, Eq, Structural, Debug)]
pub enum Daemon {
    SystemD,
    OpenRC,
}

/// Error for a string naming neither service manager.
#[derive(Debug)]
pub struct DaemonParseError;

/// The daemon a string names, compared without regard to ASCII case.
pub open spec fn spec_parse_daemon(s: Seq<char>) -> Option<Daemon> {
    if lower_seq(s) == lower_seq("systemd"@) {
        Some(Daemon::SystemD)
    } else if lower_seq(s) == lower_seq("openrc"@) {
        Some(Daemon::OpenRC)
    } else {
        None
    }
}

impl Daemon {
    pub fn parse(s: &str) -> (r: Result<Daemon, DaemonParseError>)
        ensures
            match r {
                Ok(v) => spec_parse_daemon(s@) == Some(v),
                Err(_) => spec_parse_daemon(s@) is None,
            },
    {
        if str_eq_ignore_ascii_case(s, "systemd") {
            Ok(Daemon::SystemD)
        } else if str_eq_ignore_ascii_case(s, "openrc") {
            Ok(Daemon::OpenRC)
        } else {
            Err(DaemonParseError)
        }
    }
}

/// One external command: a program and its arguments.
pub struct Command {
    pub program: &'static str,
    pub args: Vec<&'static str>,
}

/// How to remove the service: the commands to run before deleting the
/// service file, the file to delete, and the commands to run after.
pub struct RemovePlan {
    pub pre: Vec<Command>,
    pub remove_path: &'static str,
    pub post: Vec<Command>,
}

/// How to install the service: where the service file goes and with which
/// mode, and the commands to run once it is written.
pub struct SetupPlan {
    pub service_path: &'static str,
    pub file_mode: u32,
    pub commands: Vec<Command>,
}

/// The systemd unit path.
pub fn systemd_unit_path() -> (r: &'static str)
    ensures
        r@ == "/etc/systemd/system/xyz.vrtgs.hptp.service"@,
{
    "/etc/systemd/system/xyz.vrtgs.hptp.service"
}

/// The OpenRC init-script path.
pub fn openrc_script_path() -> (r: &'static str)
    ensures
        r@ == "/etc/init.d/xyz.vrtgs.hptp"@,
{
    "/etc/init.d/xyz.vrtgs.hptp"
}

/// The unit's file name: what follows the final slash of the unit path.
pub fn systemd_service_name() -> (r: &'static str)
    ensures
        "/etc/systemd/system/"@ + r@ == "/etc/systemd/system/xyz.vrtgs.hptp.service"@,
{
    proof {
        reveal_strlit("/etc/systemd/system/");
        reveal_strlit("xyz.vrtgs.hptp.service");
        reveal_strlit("/etc/systemd/system/xyz.vrtgs.hptp.service");
        assert("/etc/systemd/system/"@ + "xyz.vrtgs.hptp.service"@
            =~= "/etc/systemd/system/xyz.vrtgs.hptp.service"@);
    }
    "xyz.vrtgs.hptp.service"
}

fn command1(program: &'static str, a0: &'static str) -> (r: Command)
    ensures
        r.program == program,
        r.args@.len() == 1,
        r.args@[0] == a0,
{
    let mut args: Vec<&'static str> = Vec::new();
    args.push(a0);
    Command { program, args }
}

fn command2(program: &'static str, a0: &'static str, a1: &'static str) -> (r: Command)
    ensures
        r.program == program,
        r.args@.len() == 2,
        r.args@[0] == a0,
        r.args@[1] == a1,
{
    let mut args: Vec<&'static str> = Vec::new();
    args.push(a0);
    args.push(a1);
    Command { program, args }
}

fn command3(program: &'static str, a0: &'static str, a1: &'static str, a2: &'static str) -> (r:
    Command)
    ensures
        r.program == program,
        r.args@.len() == 3,
        r.args@[0] == a0,
        r.args@[1] == a1,
        r.args@[2] == a2,
{
    let mut args: Vec<&'static str> = Vec::new();
    args.push(a0);
    args.push(a1);
    args.push(a2);
    Command { program, args }
}

/// The removal plan for a daemon: stop and deregister the service, delete
/// its file, and let the manager reload where it needs to.
pub fn remove_startup(daemon: Daemon) -> (r: RemovePlan)
    ensures
        match daemon {
            Daemon::SystemD => {
                &&& r.pre@.len() == 2
                &&& r.pre@[0].program@ == "systemctl"@ && r.pre@[0].args@.len() == 2
                    && r.pre@[0].args@[0]@ == "stop"@ && r.pre@[0].args@[1]@
                    == "xyz.vrtgs.hptp.service"@
                &&& r.pre@[1].program@ == "systemctl"@ && r.pre@[1].args@.len() == 2
                    && r.pre@[1].args@[0]@ == "disable"@ && r.pre@[1].args@[1]@
                    == "/etc/systemd/system/xyz.vrtgs.hptp.service"@
                &&& r.remove_path@ == "/etc/systemd/system/xyz.vrtgs.hptp.service"@
                &&& r.post@.len() == 1
                &&& r.post@[0].program@ == "systemctl"@ && r.post@[0].args@.len() == 1
                    && r.post@[0].args@[0]@ == "daemon-reload"@
            },
            Daemon::OpenRC => {
                &&& r.pre@.len() == 2
                &&& r.pre@[0].program@ == "rc-service"@ && r.pre@[0].args@.len() == 2
                    && r.pre@[0].args@[0]@ == "xyz.vrtgs.hptp"@ && r.pre@[0].args@[1]@ == "stop"@
                &&& r.pre@[1].program@ == "rc-update"@ && r.pre@[1].args@.len() == 3
                    && r.pre@[1].args@[0]@ == "delete"@ && r.pre@[1].args@[1]@ == "xyz.vrtgs.hptp"@
                    && r.pre@[1].args@[2]@ == "default"@
                &&& r.remove_path@ == "/etc/init.d/xyz.vrtgs.hptp"@
                &&& r.post@.len() == 0
            },
        },
{
    match daemon {
        Daemon::SystemD => {
            let mut pre: Vec<Command> = Vec::new();
            pre.push(command2("systemctl", "stop", "xyz.vrtgs.hptp.service"));
            pre.push(command2("systemctl", "disable", "/etc/systemd/system/xyz.vrtgs.hptp.service"));
            let mut post: Vec<Command> = Vec::new();
            post.push(command1("systemctl", "daemon-reload"));
            RemovePlan { pre, remove_path: systemd_unit_path(), post }
        },
        Daemon::OpenRC => {
            let mut pre: Vec<Command> = Vec::new();
            pre.push(command2("rc-service", "xyz.vrtgs.hptp", "stop"));
            pre.push(command3("rc-update", "delete", "xyz.vrtgs.hptp", "default"));
            RemovePlan { pre, remove_path: openrc_script_path(), post: Vec::new() }
        },
    }
}

/// The installation plan for a daemon: where the service file goes, its
/// mode, and the commands that register and start the service.
pub fn setup_startup(daemon: Daemon) -> (r: SetupPlan)
    ensures
        match daemon {
            Daemon::SystemD => {
                &&& r.service_path@ == "/etc/systemd/system/xyz.vrtgs.hptp.service"@
                &&& r.file_mode == 0o644
                &&& r.commands@.len() == 3
                &&& r.commands@[0].program@ == "systemctl"@ && r.commands@[0].args@.len() == 1
                    && r.commands@[0].args@[0]@ == "daemon-reload"@
                &&& r.commands@[1].program@ == "systemctl"@ && r.commands@[1].args@.len() == 3
                    && r.commands@[1].args@[0]@ == "enable"@ && r.commands@[1].args@[1]@ == "--now"@
                    && r.commands@[1].args@[2]@ == "/etc/systemd/system/xyz.vrtgs.hptp.service"@
                &&& r.commands@[2].program@ == "systemctl"@ && r.commands@[2].args@.len() == 2
                    && r.commands@[2].args@[0]@ == "status"@ && r.commands@[2].args@[1]@
                    == "xyz.vrtgs.hptp.service"@
            },
            Daemon::OpenRC => {
                &&& r.service_path@ == "/etc/init.d/xyz.vrtgs.hptp"@
                &&& r.file_mode == 0o755
                &&& r.commands@.len() == 2
                &&& r.commands@[0].program@ == "rc-update"@ && r.commands@[0].args@.len() == 3
                    && r.commands@[0].args@[0]@ == "add"@ && r.commands@[0].args@[1]@
                    == "xyz.vrtgs.hptp"@ && r.commands@[0].args@[2]@ == "default"@
                &&& r.commands@[1].program@ == "rc-service"@ && r.commands@[1].args@.len() == 2
                    && r.commands@[1].args@[0]@ == "xyz.vrtgs.hptp"@ && r.commands@[1].args@[1]@
                    == "start"@
            },
        },
{
    match daemon {
        Daemon::SystemD => {
            let mut commands: Vec<Command> = Vec::new();
            commands.push(command1("systemctl", "daemon-reload"));
            commands.push(
                command3("systemctl", "enable", "--now", "/etc/systemd/system/xyz.vrtgs.hptp.service"),
            );
            commands.push(command2("systemctl", "status", "xyz.vrtgs.hptp.service"));
            SetupPlan { service_path: systemd_unit_path(), file_mode: 0o644, commands }
        },
        Daemon::OpenRC => {
            let mut commands: Vec<Command> = Vec::new();
            commands.push(command3("rc-update", "add", "xyz.vrtgs.hptp", "default"));
            commands.push(command2("rc-service", "xyz.vrtgs.hptp", "start"));
            SetupPlan { service_path: openrc_script_path(), file_mode: 0o755, commands }
        },
    }
}

} // verus!
