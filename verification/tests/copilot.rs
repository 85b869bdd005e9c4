use fresh_gui_app::copilot::{cli_file_names, copilot_reply, start_failure};

#[test]
fn unix_looks_for_the_bare_name() {
    assert_eq!(cli_file_names(None, false), vec!["copilot".to_string()]);
    assert_eq!(cli_file_names(Some(".EXE"), false), vec!["copilot".to_string()]);
}

#[test]
fn windows_tries_each_pathext_extension() {
    assert_eq!(
        cli_file_names(None, true),
        vec!["copilot.COM", "copilot.EXE", "copilot.BAT", "copilot.CMD"]
    );
    assert_eq!(cli_file_names(Some(".exe;;.ps1"), true), vec!["copilot.exe", "copilot", "copilot.ps1"]);
}

#[test]
fn successful_runs_return_trimmed_output() {
    assert_eq!(copilot_reply(true, "exit status: 0", "  answer\n", "warn"), Ok("answer".to_string()));
    assert_eq!(
        copilot_reply(true, "exit status: 0", " \n", ""),
        Ok("Copilot returned an empty response.".to_string())
    );
}

#[test]
fn failures_report_stderr_or_status() {
    assert_eq!(
        copilot_reply(false, "exit status: 2", "out", " not logged in \n"),
        Err("Copilot CLI failed: not logged in".to_string())
    );
    assert_eq!(
        copilot_reply(false, "exit status: 2", "out", "\n"),
        Err("Copilot CLI exited with exit status: 2.".to_string())
    );
    assert_eq!(start_failure("No such file"), "Could not start Copilot CLI: No such file");
}
