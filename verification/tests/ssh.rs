use field_monitor::model::ServerEntry;
use field_monitor::ssh::{
    remote_command, remote_login, remote_output, scp_options, sh_quote, ssh_options, upload_destination,
};

fn server() -> ServerEntry {
    ServerEntry {
        ip: String::from("192.0.2.10"),
        name: String::from("it's"),
        key: String::from("/home/op/.ssh/id"),
        user: String::from("root"),
        port: 2222,
        arch: String::from("x86_64"),
    }
}

#[test]
fn sh_quote_escapes_single_quote() {
    assert_eq!(sh_quote("x'; touch /tmp/pwned #"), "'x'\\''; touch /tmp/pwned #'");
}

#[test]
fn sh_quote_plain_value() {
    assert_eq!(sh_quote("192.0.2.10"), "'192.0.2.10'");
}

#[test]
fn sh_quote_empty() {
    assert_eq!(sh_quote(""), "''");
}

#[test]
fn remote_command_quotes_ip_and_name() {
    assert_eq!(
        remote_command(&server(), "probe"),
        "FIELD_PROBE_IP='192.0.2.10' FIELD_PROBE_NAME='it'\\''s' /tmp/field-monitor probe; rm -f /tmp/field-monitor"
    );
}

#[test]
fn login_destination_and_options() {
    let s = server();
    assert_eq!(remote_login(&s), "root@192.0.2.10");
    assert_eq!(upload_destination(&s), "root@192.0.2.10:/tmp/field-monitor");
    let opts = ssh_options(&s);
    let want: Vec<&str> = vec![
        "-i",
        "/home/op/.ssh/id",
        "-p",
        "2222",
        "-o",
        "StrictHostKeyChecking=accept-new",
        "-o",
        "ConnectTimeout=15",
        "-o",
        "ServerAliveInterval=15",
        "-o",
        "ServerAliveCountMax=3",
    ];
    assert_eq!(opts, want);
    let scp = scp_options(&s);
    assert_eq!(scp[2], "-P");
    assert_eq!(scp[3], "2222");
    assert_eq!(&scp[4..], &want[4..]);
}

#[test]
fn remote_output_appends_stderr_when_not_blank() {
    assert_eq!(remote_output("out\n", "  \n"), "out\n");
    assert_eq!(remote_output("out", " Exec format error\n"), "out\n# remote-stderr: Exec format error");
}
