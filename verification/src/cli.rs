//! The command line: what each command does.

use vstd::prelude::*;

verus! {

/// The parsed command line.
#[derive(Debug)]
pub struct Cli {
    pub command: Commands,
}

/// The commands of the program.
#[derive(Debug, PartialEq, Eq)]
pub enum Commands {
    /// Start the proxy server in the foreground.
    Start { foreground: bool },
    /// Stop the running proxy server.
    Stop,
    /// Show proxy status.
    Status,
    /// Show recent logs.
    Logs,
    /// Reload configuration without restarting.
    Reload,
    /// Install autostart service.
    Service { action: ServiceAction },
}

/// What the `service` command acts on.
#[derive(Debug, PartialEq, Eq)]
pub enum ServiceAction {
    Install,
    Uninstall,
}

/// What running a command amounts to: starting the server, or printing a
/// line and finishing.
#[derive(Debug)]
pub enum CommandPlan {
    StartServer,
    Print(String),
}

/// The line a command that does not start the server prints.
pub open spec fn command_message(cmd: Commands) -> Seq<char> {
    match cmd {
        Commands::Stop => "stop: not implemented in v1. Send SIGTERM to the running process."@,
        Commands::Status => "status: not implemented in v1."@,
        Commands::Logs => "logs: not implemented in v1. Tail the log file manually."@,
        Commands::Reload => "reload: not implemented in CLI v1. Use the web UI reload button or restart the server."@,
        Commands::Service { action: ServiceAction::Install } => "service install: coming soon."@,
        Commands::Service { action: ServiceAction::Uninstall } => "service uninstall: coming soon."@,
        Commands::Start { .. } => Seq::empty(),
    }
}

/// Decides what a command does: `start` runs the server, with or without
/// `--foreground`; every other command prints its line.
pub fn command_plan(cmd: &Commands) -> (r: CommandPlan)
    ensures
        cmd is Start <==> r is StartServer,
        r matches CommandPlan::Print(m) ==> m@ == command_message(*cmd),
{
    match cmd {
        Commands::Start { .. } => CommandPlan::StartServer,
        Commands::Stop => CommandPlan::Print(
            "stop: not implemented in v1. Send SIGTERM to the running process.".to_string(),
        ),
        Commands::Status => CommandPlan::Print("status: not implemented in v1.".to_string()),
        Commands::Logs => CommandPlan::Print(
            "logs: not implemented in v1. Tail the log file manually.".to_string(),
        ),
        Commands::Reload => CommandPlan::Print(
            "reload: not implemented in CLI v1. Use the web UI reload button or restart the server.".to_string(),
        ),
        Commands::Service { action: ServiceAction::Install } => CommandPlan::Print(
            "service install: coming soon.".to_string(),
        ),
        Commands::Service { action: ServiceAction::Uninstall } => CommandPlan::Print(
            "service uninstall: coming soon.".to_string(),
        ),
    }
}

} // verus!
