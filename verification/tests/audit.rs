use field_monitor::audit::{
    docker_status, fail2ban_status, listeners, os_pretty_name, run, sshd_value, ufw_status,
    HostFacts, ToolRun,
};

fn ran(success: bool, stdout: &str) -> ToolRun {
    ToolRun::Ran { success, stdout: String::from(stdout) }
}

#[test]
fn sshd_value_finds_first_setting_ignoring_case() {
    let cfg = "# Port 2200\n  port 2222 extra\nPort 22\nPasswordAuthentication no\nPermitRootLogin\n";
    assert_eq!(sshd_value(cfg, "Port"), Some(String::from("2222")));
    assert_eq!(sshd_value(cfg, "PasswordAuthentication"), Some(String::from("no")));
    assert_eq!(sshd_value(cfg, "PermitRootLogin"), None);
    assert_eq!(sshd_value(cfg, "UsePAM"), None);
    assert_eq!(sshd_value("PortX 1\n", "Port"), None);
}

#[test]
fn os_name_from_os_release() {
    let t = "NAME=\"Ubuntu\"\nPRETTY_NAME=\"Ubuntu 24.04 LTS\"\nID=ubuntu\n";
    assert_eq!(os_pretty_name(t), Some(String::from("Ubuntu 24.04 LTS")));
    assert_eq!(os_pretty_name("PRETTY_NAME\n"), Some(String::new()));
    assert_eq!(os_pretty_name("ID=x\n"), None);
}

#[test]
fn tool_statuses() {
    assert_eq!(ufw_status(&ToolRun::Missing), "none");
    assert_eq!(ufw_status(&ToolRun::Failed), "unknown");
    assert_eq!(ufw_status(&ran(false, "Status: active\nTo Action\n")), "Status: active");
    assert_eq!(ufw_status(&ran(true, "")), "unknown");
    assert_eq!(fail2ban_status(&ToolRun::Missing), "none");
    assert_eq!(fail2ban_status(&ran(true, "")), "yes");
    assert_eq!(fail2ban_status(&ran(false, "")), "needroot");
    assert_eq!(fail2ban_status(&ToolRun::Failed), "needroot");
    assert_eq!(docker_status(&ToolRun::Missing), "none");
    assert_eq!(docker_status(&ran(true, "")), "yes");
    assert_eq!(docker_status(&ran(false, "")), "no");
}

#[test]
fn listeners_from_ss_output() {
    let ss = "Netid State  Recv-Q Send-Q Local Address:Port Peer Address:Port\n\
              udp   UNCONN 0      0      127.0.0.53%lo:53      0.0.0.0:*\n\
              tcp   LISTEN 0      4096   0.0.0.0:22          0.0.0.0:*\n\
              tcp   LISTEN 0      511    [::]:443            [::]:*\n\
              tcp   LISTEN 0      1\n\
              tcp6  LISTEN 0      1      [::]:notaport       [::]:*\n";
    let l = listeners(&ran(true, ss));
    assert_eq!(l, vec!["udp 53", "tcp 22", "tcp 443"]);
    assert!(listeners(&ToolRun::Missing).is_empty());
}

#[test]
fn run_assembles_audit_row() {
    let facts = HostFacts {
        sudo_nopass: true,
        os_release: Some(String::from("PRETTY_NAME=\"Debian 12\"\n")),
        sshd_config: Some(String::from("PasswordAuthentication yes\n")),
        ufw: ToolRun::Missing,
        fail2ban: ran(true, ""),
        docker: ran(false, ""),
        ss: ran(true, "tcp LISTEN 0 1 0.0.0.0:22 0.0.0.0:*\ntcp LISTEN 0 1 0.0.0.0:80 0.0.0.0:*\n"),
    };
    let a = run("edge-1", "203.0.113.5", &facts);
    assert_eq!(a.ip, "203.0.113.5");
    assert_eq!(a.name, "edge-1");
    assert_eq!(a.sudo_nopass, "yes");
    assert_eq!(a.os, "Debian 12");
    assert_eq!(a.ssh_port, "22");
    assert_eq!(a.ssh_pw, "yes");
    assert_eq!(a.ssh_root, "default");
    assert_eq!(a.ufw, "none");
    assert_eq!(a.fail2ban, "yes");
    assert_eq!(a.docker, "no");
    assert_eq!(a.ports, "tcp 22,tcp 80");
}

#[test]
fn run_without_readable_files() {
    let facts = HostFacts {
        sudo_nopass: false,
        os_release: None,
        sshd_config: None,
        ufw: ToolRun::Failed,
        fail2ban: ToolRun::Missing,
        docker: ToolRun::Missing,
        ss: ToolRun::Failed,
    };
    let a = run("n", "i", &facts);
    assert_eq!(a.sudo_nopass, "no");
    assert_eq!(a.os, "unknown");
    assert_eq!(a.ssh_port, "22");
    assert_eq!(a.ssh_pw, "default");
    assert_eq!(a.ufw, "unknown");
    assert_eq!(a.ports, "");
}
