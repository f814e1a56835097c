use rei_manga::ports::{
    attach_process_tree_unix, attach_process_tree_windows, check_kill_pid, collect_ports,
    collect_ports_windows, kill_outcome, parse_endpoint, parse_lsof_output, parse_single_endpoint,
    parse_windows_endpoint,
};

#[test]
fn endpoints_split_host_and_port() {
    let e = parse_single_endpoint(" 127.0.0.1:8080 ");
    assert_eq!(e.address, "127.0.0.1");
    assert_eq!(e.port, Some(8080));
    let e = parse_single_endpoint("[::1]:3000");
    assert_eq!(e.address, "::1");
    assert_eq!(e.port, Some(3000));
    let e = parse_single_endpoint(":443");
    assert_eq!(e.address, "*");
    assert_eq!(e.port, Some(443));
    let e = parse_single_endpoint("localhost");
    assert_eq!(e.address, "localhost");
    assert_eq!(e.port, None);
    let (local, remote) = parse_endpoint("10.0.0.2:5000->10.0.0.9:443");
    assert_eq!(local.port, Some(5000));
    let remote = remote.unwrap();
    assert_eq!(remote.address, "10.0.0.9");
    assert_eq!(remote.port, Some(443));
    let w = parse_windows_endpoint("0.0.0.0:135");
    assert_eq!(w.address, "0.0.0.0");
    assert_eq!(w.port, Some(135));
    let w = parse_windows_endpoint("*:*");
    assert_eq!(w.address, "*");
    assert_eq!(w.port, None);
}

const LSOF: &str = "p100\ncnode\nf12\nPTCP\nn*:3000\nf13\nPTCP\nn127.0.0.1:3000->127.0.0.1:5000\nn*:3000\np200\ncpython\nPudp\nn[::1]:53\n";

#[test]
fn lsof_output_becomes_rows() {
    let rows = parse_lsof_output(LSOF);
    assert_eq!(rows.len(), 3);
    assert_eq!(rows[0].pid, Some(100));
    assert_eq!(rows[0].process_name.as_deref(), Some("node"));
    assert_eq!(rows[0].protocol, "TCP");
    assert_eq!(rows[0].local_address, "*");
    assert_eq!(rows[0].local_port, Some(3000));
    assert_eq!(rows[1].remote_address.as_deref(), Some("127.0.0.1"));
    assert_eq!(rows[1].remote_port, Some(5000));
    assert_eq!(rows[2].protocol, "UDP");
    assert_eq!(rows[2].local_address, "::1");
    assert!(rows.iter().all(|r| r.ancestors.is_empty() && r.parent_pid.is_none()));
}

#[test]
fn lsof_rows_sharing_a_joined_key_are_kept_once() {
    // "TCP" with local "1|h" and "TCP|1" with local "h" join to the same key.
    let rows = parse_lsof_output("p1\ncx\nPTCP\nn1|h:80\nPTCP|1\nnh:80\n");
    assert_eq!(rows.len(), 1);
    assert_eq!(rows[0].protocol, "TCP");
    assert_eq!(rows[0].local_address, "1|h");
    assert_eq!(rows[0].local_port, Some(80));
    let quoted = parse_lsof_output("p1\nPTCP\nnh:80->a|b:1\nnh:80->a|b:1\nnh:80->a:1\n");
    assert_eq!(quoted.len(), 2);
}

#[test]
fn process_tree_from_ps() {
    let ps = "  1     0 /sbin/launchd\n 50     1 /usr/bin/login\n 60    50 -zsh\n100    60 node server.js\n200     1 launchd\n";
    let mut rows = parse_lsof_output(LSOF);
    attach_process_tree_unix(&mut rows, ps);
    assert_eq!(rows[0].parent_pid, Some(60));
    assert_eq!(rows[0].parent_process_name.as_deref(), Some("-zsh"));
    let chain: Vec<(u32, Option<&str>)> = rows[0].ancestors.iter().map(|l| (l.pid, l.process_name.as_deref())).collect();
    assert_eq!(chain, vec![(50, Some("/usr/bin/login")), (60, Some("-zsh"))]);
    assert_eq!(rows[2].parent_pid, Some(1));
    assert!(rows[2].ancestors.is_empty());
    let all = collect_ports(LSOF, Some(ps));
    assert_eq!(all.len(), 3);
    assert_eq!(all[0].ancestors.len(), 2);
    let bare = collect_ports(LSOF, None);
    assert!(bare[0].ancestors.is_empty());
}

const NETSTAT: &str = "\r\nActive Connections\r\n\r\n  Proto  Local Address          Foreign Address        State           PID\r\n  TCP    0.0.0.0:135            0.0.0.0:0              LISTENING       884\r\n  TCP    127.0.0.1:5000         127.0.0.1:61000        ESTABLISHED     4321\r\n  TCP    0.0.0.0:135            0.0.0.0:0              LISTENING       884\r\n  UDP    [::1]:1900             *:*                                    2200\r\n  short line\r\n";

const TASKLIST: &str = "\"svchost.exe\",\"884\",\"Services\",\"0\",\"10,000 K\"\r\n\"python.exe\",\"4321\",\"Console\",\"1\",\"20,000 K\"\r\n";

const WMIC: &str = "\r\nNode,Name,ParentProcessId,ProcessId\r\nHOST,4,0,explorer.exe\r\nHOST,900,4321, python.exe \r\nHOST,4,900,cmd.exe\r\nHOST,0,4,System\r\nHOST,600,884,svchost.exe\r\nHOST,4,600,System\r\n";

#[test]
fn netstat_output_becomes_rows() {
    let rows = collect_ports_windows(NETSTAT, Some(TASKLIST), None);
    assert_eq!(rows.len(), 3);
    assert_eq!(rows[0].protocol, "TCP");
    assert_eq!(rows[0].local_address, "0.0.0.0");
    assert_eq!(rows[0].local_port, Some(135));
    assert_eq!(rows[0].remote_address.as_deref(), Some("0.0.0.0"));
    assert_eq!(rows[0].remote_port, Some(0));
    assert_eq!(rows[0].pid, Some(884));
    assert_eq!(rows[0].process_name.as_deref(), Some("svchost.exe"));
    assert_eq!(rows[1].pid, Some(4321));
    assert_eq!(rows[1].process_name.as_deref(), Some("python.exe"));
    assert_eq!(rows[2].protocol, "UDP");
    assert_eq!(rows[2].local_address, "::1");
    assert_eq!(rows[2].local_port, Some(1900));
    assert_eq!(rows[2].remote_address, None);
    assert_eq!(rows[2].remote_port, None);
    assert_eq!(rows[2].pid, Some(2200));
    assert_eq!(rows[2].process_name, None);
    let unnamed = collect_ports_windows(NETSTAT, None, None);
    assert!(unnamed.iter().all(|r| r.process_name.is_none()));
}

#[test]
fn process_tree_from_wmic() {
    let rows = collect_ports_windows(NETSTAT, Some(TASKLIST), Some(WMIC));
    // python.exe (4321) has parent 900 (cmd.exe), whose parent is 4: the walk stops there.
    assert_eq!(rows[1].parent_pid, Some(900));
    assert_eq!(rows[1].parent_process_name.as_deref(), Some("cmd.exe"));
    let chain: Vec<(u32, Option<&str>)> = rows[1].ancestors.iter().map(|l| (l.pid, l.process_name.as_deref())).collect();
    assert_eq!(chain, vec![(900, Some("cmd.exe"))]);
    // svchost.exe (884) has parent 600, named System: its name is not reported.
    assert_eq!(rows[0].parent_pid, Some(600));
    assert_eq!(rows[0].parent_process_name, None);
    let chain: Vec<u32> = rows[0].ancestors.iter().map(|l| l.pid).collect();
    assert_eq!(chain, vec![600]);
    // 2200 is not listed: nothing attached.
    assert_eq!(rows[2].parent_pid, None);
    assert!(rows[2].ancestors.is_empty());
    let mut again = collect_ports_windows(NETSTAT, Some(TASKLIST), None);
    attach_process_tree_windows(&mut again, WMIC);
    assert_eq!(again[1].ancestors.len(), 1);
}

#[test]
fn kill_outcomes() {
    assert_eq!(check_kill_pid(0), Err("Invalid PID".to_string()));
    assert_eq!(check_kill_pid(42), Ok(()));
    assert_eq!(kill_outcome(false, true, ""), Ok(()));
    assert_eq!(kill_outcome(false, false, "kill: (42) - No such process\n"), Ok(()));
    assert_eq!(
        kill_outcome(false, false, "  kill: (1) - Operation not permitted\n"),
        Err("kill failed: kill: (1) - Operation not permitted".to_string())
    );
    assert_eq!(kill_outcome(true, false, "ERROR: The process \"42\" not found."), Ok(()));
    assert_eq!(
        kill_outcome(true, false, "ERROR: Access is denied.\r\n"),
        Err("taskkill failed: ERROR: Access is denied.".to_string())
    );
}
