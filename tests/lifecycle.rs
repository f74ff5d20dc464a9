use haproxy_autoconf::config::{ArtifactState, BackendConfig, FrontendConfig};
use haproxy_autoconf::uid::Uid;

fn strings(items: &[&str]) -> Vec<String> {
    items.iter().map(|s| s.to_string()).collect()
}

#[test]
fn backend_config_renders_descriptor() {
    let uid = Uid::new(&strings(&["a.com"]));
    let id = uid.to_string();
    let backend = BackendConfig::new("10.0.0.1:80", &uid);
    assert_eq!(backend.artifact().path(), format!("/usr/local/etc/haproxy.inbox/200-{}.cfg", id));
    assert_eq!(
        backend.artifact().content(),
        format!(
            "backend {id}\nmode http\nserver {id} 10.0.0.1:80\nhttp-request set-header X-Forwarded-Port %[dst_port]\nhttp-request add-header X-Forwarded-Proto https if {{ ssl_fc }}\n\n"
        )
    );
    assert_eq!(backend.artifact().state(), ArtifactState::Pending);
}

#[test]
fn frontend_config_renders_sorted_rules() {
    let domains = strings(&["b.com", "a.com"]);
    let uid = Uid::new(&domains);
    let id = uid.to_string();
    let frontend = FrontendConfig::new(&domains, &uid);
    assert_eq!(frontend.artifact().path(), format!("/usr/local/etc/haproxy.inbox/100-{}.cfg", id));
    assert_eq!(
        frontend.artifact().content(),
        format!(
            "use_backend {id} if {{ ssl_fc_sni_end -i a.com }}\nuse_backend {id} if {{ ssl_fc_sni_end -i b.com }}\n\n"
        )
    );
}

#[test]
fn frontend_config_without_domains_is_blank_line() {
    let uid = Uid::new(&Vec::new());
    let frontend = FrontendConfig::new(&Vec::new(), &uid);
    assert_eq!(frontend.artifact().content(), "\n");
}

#[test]
fn backend_sorts_before_frontend() {
    let domains = strings(&["a.com"]);
    let uid = Uid::new(&domains);
    let backend = BackendConfig::new("h:1", &uid);
    let frontend = FrontendConfig::new(&domains, &uid);
    assert!(backend.artifact().path() > frontend.artifact().path());
    assert!(frontend.artifact().path().ends_with(&format!("100-{}.cfg", uid.as_str())));
}

#[test]
fn release_hands_back_path_once() {
    let domains = strings(&["a.com"]);
    let uid = Uid::new(&domains);
    let mut frontend = FrontendConfig::new(&domains, &uid);
    let path = frontend.artifact().path().to_string();
    frontend.mark_installed();
    assert_eq!(frontend.artifact().state(), ArtifactState::Installed);
    assert_eq!(frontend.release(), Some(path));
    assert_eq!(frontend.artifact().state(), ArtifactState::Removed);
    assert_eq!(frontend.release(), None);
}

#[test]
fn release_of_pending_removes_nothing() {
    let uid = Uid::new(&strings(&["a.com"]));
    let mut backend = BackendConfig::new("h:1", &uid);
    assert_eq!(backend.release(), None);
    assert_eq!(backend.artifact().state(), ArtifactState::Removed);
}

#[test]
fn removed_artifact_is_not_installed_again() {
    let uid = Uid::new(&strings(&["a.com"]));
    let mut backend = BackendConfig::new("h:1", &uid);
    backend.mark_installed();
    assert!(backend.release().is_some());
    backend.mark_installed();
    assert_eq!(backend.artifact().state(), ArtifactState::Removed);
    assert_eq!(backend.release(), None);
}
