use haproxy_autoconf::config::{BackendConfig, FrontendConfig};
use haproxy_autoconf::domains::parse_domains;
use haproxy_autoconf::shutdown::{release_all, PollAction, ShutdownCoordinator};
use haproxy_autoconf::uid::Uid;

#[test]
fn poll_waits_while_flag_clear() {
    let mut c = ShutdownCoordinator::new();
    assert_eq!(c.poll(false), PollAction::Wait);
    assert_eq!(c.poll(false), PollAction::Wait);
    assert!(!c.has_begun());
}

#[test]
fn repeated_signals_shut_down_once() {
    let mut c = ShutdownCoordinator::new();
    let actions: Vec<PollAction> = [false, true, true, false, true].iter().map(|f| c.poll(*f)).collect();
    let shutdowns = actions.iter().filter(|a| **a == PollAction::Shutdown).count();
    assert_eq!(shutdowns, 1);
    assert_eq!(actions[1], PollAction::Shutdown);
    assert!(c.has_begun());
}

#[test]
fn release_all_removes_backend_then_frontend() {
    let domains = parse_domains("a.com");
    let uid = Uid::new(&domains);
    let mut backend = BackendConfig::new("h:1", &uid);
    let mut frontend = FrontendConfig::new(&domains, &uid);
    backend.mark_installed();
    frontend.mark_installed();
    let paths = release_all(&mut backend, &mut frontend);
    assert_eq!(
        paths,
        vec![
            format!("/usr/local/etc/haproxy.inbox/200-{}.cfg", uid.as_str()),
            format!("/usr/local/etc/haproxy.inbox/100-{}.cfg", uid.as_str()),
        ]
    );
    assert!(release_all(&mut backend, &mut frontend).is_empty());
}

#[test]
fn release_all_skips_uninstalled_frontend() {
    let domains = parse_domains("a.com");
    let uid = Uid::new(&domains);
    let mut backend = BackendConfig::new("h:1", &uid);
    let mut frontend = FrontendConfig::new(&domains, &uid);
    backend.mark_installed();
    let paths = release_all(&mut backend, &mut frontend);
    assert_eq!(paths, vec![format!("/usr/local/etc/haproxy.inbox/200-{}.cfg", uid.as_str())]);
}

#[test]
fn end_to_end_two_domains() {
    let domains = parse_domains("a.example.com, b.example.com");
    let uid = Uid::new(&domains);
    let id = "ab38541030c7356d6e5e56d92f246594a7838c915313f5b610c221354d8f9580";
    assert_eq!(uid.as_str(), id);
    let mut backend = BackendConfig::new("10.0.0.5:8080", &uid);
    let mut frontend = FrontendConfig::new(&domains, &uid);
    assert_eq!(backend.artifact().path(), format!("/usr/local/etc/haproxy.inbox/200-{id}.cfg"));
    assert!(backend.artifact().content().starts_with(&format!("backend {id}\n")));
    assert!(backend.artifact().content().contains(&format!("server {id} 10.0.0.5:8080\n")));
    assert_eq!(frontend.artifact().path(), format!("/usr/local/etc/haproxy.inbox/100-{id}.cfg"));
    assert_eq!(
        frontend.artifact().content(),
        format!(
            "use_backend {id} if {{ ssl_fc_sni_end -i a.example.com }}\nuse_backend {id} if {{ ssl_fc_sni_end -i b.example.com }}\n\n"
        )
    );
    backend.mark_installed();
    frontend.mark_installed();
    let mut c = ShutdownCoordinator::new();
    assert_eq!(c.poll(false), PollAction::Wait);
    assert_eq!(c.poll(true), PollAction::Shutdown);
    let removed = release_all(&mut backend, &mut frontend);
    assert_eq!(removed.len(), 2);
    assert_eq!(c.poll(true), PollAction::Wait);
}
