use hcloud::apis::configuration::Configuration;
use robotlb::config::OperatorConfig;
use robotlb::lb::sync::{plan_cleanup, plan_sync, CurrentBalancer, ServiceConfig, SyncAction};
use robotlb::lb::{LBAlgorithm, LoadBalancer};
use robotlb::meta::ResourceMeta;

fn desired() -> LoadBalancer {
    let cfg = OperatorConfig {
        hcloud_token: String::new(),
        default_network: None,
        dynamic_node_selector: false,
        default_lb_retries: 3,
        default_lb_timeout: 10,
        default_lb_interval: 15,
        default_lb_location: "hel1".to_string(),
        default_balancer_type: "lb11".to_string(),
        default_lb_algorithm: "least-connections".to_string(),
        default_lb_proxy_mode_enabled: false,
        ipv6_ingress: false,
        log_level: "INFO".to_string(),
    };
    let meta = ResourceMeta {
        name: Some("svc".to_string()),
        generate_name: None,
        namespace: Some("default".to_string()),
        annotations: None,
    };
    LoadBalancer::try_from_meta(&meta, &cfg, &Configuration::new()).unwrap()
}

fn service(listen: i32, dest: i32, interval: i32) -> ServiceConfig {
    ServiceConfig {
        listen_port: listen,
        destination_port: dest,
        proxy_mode: false,
        check_interval: interval,
        timeout: 10,
        retries: 3,
    }
}

#[test]
fn sync_plans_every_kind_of_change() {
    let mut lb = desired();
    lb.private_ip = Some("10.10.10.10".to_string());
    lb.add_service(80, 30080);
    lb.add_service(443, 30443);
    lb.add_target("1.1.1.1");
    lb.add_target("2.2.2.2");
    lb.add_target("1.1.1.1");

    let current = CurrentBalancer {
        algorithm: LBAlgorithm::RoundRobin,
        balancer_type: "lb21".to_string(),
        services: vec![service(8080, 31000, 15), service(80, 30080, 20), service(443, 30443, 15)],
        targets: vec!["3.3.3.3".to_string(), "1.1.1.1".to_string()],
        networks: vec![7, 9],
    };
    let plan = plan_sync(&lb, &current, Some(42));
    assert_eq!(
        plan,
        vec![
            SyncAction::DetachNetwork(7),
            SyncAction::DetachNetwork(9),
            SyncAction::AttachNetwork { network: 42, ip: Some("10.10.10.10".to_string()) },
            SyncAction::ChangeAlgorithm(LBAlgorithm::LeastConnections),
            SyncAction::ChangeType("lb11".to_string()),
            SyncAction::DeleteService(8080),
            SyncAction::UpdateService(service(80, 30080, 15)),
            SyncAction::RemoveTarget("3.3.3.3".to_string()),
            SyncAction::AddTarget("2.2.2.2".to_string()),
        ]
    );
}

#[test]
fn sync_of_a_balancer_in_line_plans_nothing() {
    let mut lb = desired();
    lb.add_service(80, 30080);
    lb.add_target("1.1.1.1");
    let current = CurrentBalancer {
        algorithm: LBAlgorithm::LeastConnections,
        balancer_type: "lb11".to_string(),
        services: vec![service(80, 30080, 15)],
        targets: vec!["1.1.1.1".to_string()],
        networks: vec![5],
    };
    assert!(plan_sync(&lb, &current, Some(5)).is_empty());
}

#[test]
fn sync_adds_missing_listeners_and_keeps_wanted_network() {
    let mut lb = desired();
    lb.add_service(80, 30080);
    lb.add_service(443, 30443);
    let current = CurrentBalancer {
        algorithm: LBAlgorithm::LeastConnections,
        balancer_type: "lb11".to_string(),
        services: vec![],
        targets: vec![],
        networks: vec![3],
    };
    let plan = plan_sync(&lb, &current, None);
    assert_eq!(plan.len(), 3);
    assert_eq!(plan[0], SyncAction::DetachNetwork(3));
    assert!(plan.contains(&SyncAction::AddService(service(80, 30080, 15))));
    assert!(plan.contains(&SyncAction::AddService(service(443, 30443, 15))));
}

#[test]
fn cleanup_deletes_listeners_then_targets() {
    let current = CurrentBalancer {
        algorithm: LBAlgorithm::RoundRobin,
        balancer_type: "lb11".to_string(),
        services: vec![service(80, 30080, 15), service(443, 30443, 15)],
        targets: vec!["1.1.1.1".to_string(), "2.2.2.2".to_string()],
        networks: vec![1],
    };
    assert_eq!(
        plan_cleanup(&current),
        vec![
            SyncAction::DeleteService(80),
            SyncAction::DeleteService(443),
            SyncAction::RemoveTarget("1.1.1.1".to_string()),
            SyncAction::RemoveTarget("2.2.2.2".to_string()),
        ]
    );
}
