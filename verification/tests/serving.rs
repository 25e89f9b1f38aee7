use prometheus_client_php_mmap::exporter::CachedDirExporter;
use prometheus_client_php_mmap::merge::MergedValue;
use prometheus_client_php_mmap::service::{
    healthz, help, metrics, parse_args, Command, MetricsOutcome,
};

fn args(list: &[&str]) -> Vec<String> {
    list.iter().map(|s| s.to_string()).collect()
}

#[test]
fn metrics_returns_prometheus_text_content_type() {
    let mut exporter = CachedDirExporter::new();
    let rendered = exporter.render(&Vec::new(), |_: &MergedValue| String::new()).text;
    let response = metrics(MetricsOutcome::Rendered(rendered));
    let body = "# HELP prometheus_mmap_exporter_file_errors Number of metric files skipped during this scrape\n# TYPE prometheus_mmap_exporter_file_errors gauge\nprometheus_mmap_exporter_file_errors 0\n";
    assert_eq!(response.status, 200);
    assert_eq!(
        response.content_type.unwrap(),
        "text/plain; version=0.0.4; charset=utf-8"
    );
    assert_eq!(response.body, body);
}

#[test]
fn healthz_returns_ok() {
    assert_eq!(healthz(), "ok\n");
}

#[test]
fn failures_are_answered_with_their_reason() {
    let response = metrics(MetricsOutcome::RenderError("numeric overflow".to_string()));
    assert_eq!(response.status, 500);
    assert_eq!(response.content_type, None);
    assert_eq!(response.body, "render error: numeric overflow\n");
    let response = metrics(MetricsOutcome::Unavailable);
    assert_eq!(response.status, 500);
    assert_eq!(response.body, "exporter state is unavailable\n");
}

#[test]
fn arguments_name_directory_and_address() {
    assert_eq!(
        parse_args(&args(&["--dir", "/tmp/m"])),
        Ok(Command::Serve { dir: "/tmp/m".to_string(), listen: "127.0.0.1:9464".to_string() })
    );
    assert_eq!(
        parse_args(&args(&["--listen", "0.0.0.0:1", "--dir", "a", "--dir", "b"])),
        Ok(Command::Serve { dir: "b".to_string(), listen: "0.0.0.0:1".to_string() })
    );
    assert_eq!(
        parse_args(&args(&["--dir", "a", "--listen"])),
        Ok(Command::Serve { dir: "a".to_string(), listen: "127.0.0.1:9464".to_string() })
    );
}

#[test]
fn arguments_that_cannot_be_served() {
    assert_eq!(parse_args(&args(&[])), Err("missing required --dir PATH".to_string()));
    assert_eq!(
        parse_args(&args(&["--dir", "a", "--dir"])),
        Err("missing required --dir PATH".to_string())
    );
    assert_eq!(
        parse_args(&args(&["--dir", "a", "extra"])),
        Err("unknown argument: extra".to_string())
    );
}

#[test]
fn help_is_given_when_asked_for() {
    assert_eq!(parse_args(&args(&["--help", "nonsense"])), Ok(Command::Help));
    assert_eq!(parse_args(&args(&["-h"])), Ok(Command::Help));
    let lines = help();
    assert_eq!(lines.len(), 5);
    assert_eq!(lines[0], "Usage: prometheus-mmap-exporter --dir PATH [--listen ADDR]");
    assert_eq!(lines[1], "");
    assert_eq!(lines[4], "  --listen ADDR    Listen address (default: 127.0.0.1:9464)");
}
