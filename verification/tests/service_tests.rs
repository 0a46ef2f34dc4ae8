use bus_exporter::config::Protocol;
use bus_exporter::service::{
    protocol_str, pull_exit_code, render_unit, replace_all_str, start_hint, tally,
};

#[test]
fn replace_matches_std() {
    for (s, p, r) in [
        ("aaa", "a", "b"),
        ("aaaa", "aa", "a"),
        ("x{bin}y{bin}", "{bin}", "/usr/bin/b"),
        ("", "x", "y"),
        ("abc", "", "z"),
        ("ababa", "aba", "-"),
    ] {
        assert_eq!(replace_all_str(s, p, r), s.replace(p, r), "{s} {p} {r}");
    }
}

#[test]
fn unit_file_contents() {
    let unit = render_unit("/usr/local/bin/bus-exporter", "/etc/bus-exporter/config.yaml", false);
    assert!(unit.contains("ExecStart=/usr/local/bin/bus-exporter run -c /etc/bus-exporter/config.yaml\n"));
    assert!(unit.contains("WantedBy=multi-user.target\n"));
    assert!(unit.starts_with("[Unit]\nDescription=Bus Exporter - Industrial bus metrics exporter\n"));
    let user = render_unit("b", "c", true);
    assert!(user.contains("WantedBy=default.target\n"));
    assert_eq!(start_hint(true), "Start with: systemctl --user start bus-exporter");
    assert_eq!(start_hint(false), "Start with: systemctl start bus-exporter");
}

#[test]
fn pull_summary() {
    let s = tally(&vec![vec![true, false, true], vec![], vec![true]]);
    assert_eq!(s.total_collectors, 3);
    assert_eq!(s.total_metrics, 4);
    assert_eq!(s.successful, 3);
    assert_eq!(s.failed, 1);
    assert_eq!(pull_exit_code(&s), 2);
    let ok = tally(&vec![vec![true]]);
    assert_eq!(pull_exit_code(&ok), 0);
    assert_eq!(protocol_str(&Protocol::ModbusTcp { endpoint: "h:502".to_string() }), "modbus-tcp");
    assert_eq!(protocol_str(&Protocol::I2c { bus: "/dev/i2c-1".to_string(), address: 1 }), "i2c");
}
