use robotlb::controller::status::{
    build_ingress, status_patch_target, IngressEntry, IpMode, LoadBalancerAddresses,
    INGRESS_IP_MODE_FIELD,
};
use robotlb::meta::ResourceMeta;

fn test_load_balancer() -> LoadBalancerAddresses {
    LoadBalancerAddresses {
        private_ips: vec![Some("10.10.0.5".to_string())],
        ipv4: Some(Some("203.0.113.10".to_string())),
        ipv4_dns_ptr: Some(Some("public.example.com".to_string())),
        ipv6: Some(Some("2001:db8::10".to_string())),
        ipv6_dns_ptr: Some(Some("public-v6.example.com".to_string())),
    }
}

#[test]
fn build_ingress_uses_public_addresses_when_enabled() {
    let ingress = build_ingress(&test_load_balancer(), true, false, true);

    assert_eq!(
        ingress,
        vec![
            IngressEntry {
                ip: "203.0.113.10".to_string(),
                dns: Some(Some("public.example.com".to_string())),
                ip_mode: IpMode::VIP,
            },
            IngressEntry {
                ip: "2001:db8::10".to_string(),
                dns: Some(Some("public-v6.example.com".to_string())),
                ip_mode: IpMode::VIP,
            },
        ]
    );
}

#[test]
fn build_ingress_uses_private_address_when_public_interface_is_disabled() {
    let ingress = build_ingress(&test_load_balancer(), true, false, false);

    assert_eq!(
        ingress,
        vec![IngressEntry {
            ip: "10.10.0.5".to_string(),
            dns: None,
            ip_mode: IpMode::VIP,
        }]
    );
}

#[test]
fn build_ingress_without_ipv6_keeps_only_ipv4() {
    let ingress = build_ingress(&test_load_balancer(), false, false, true);
    assert_eq!(
        ingress,
        vec![IngressEntry {
            ip: "203.0.113.10".to_string(),
            dns: Some(Some("public.example.com".to_string())),
            ip_mode: IpMode::VIP,
        }]
    );
    let with_ipv6 = build_ingress(&test_load_balancer(), true, false, true);
    assert_eq!(&with_ipv6[..ingress.len()], &ingress[..]);
}

#[test]
fn build_ingress_proxy_mode_marks_every_entry() {
    let public = build_ingress(&test_load_balancer(), true, true, true);
    assert_eq!(public.len(), 2);
    assert!(public.iter().all(|e| e.ip_mode == IpMode::Proxy));
    let private = build_ingress(&test_load_balancer(), true, true, false);
    assert_eq!(private.len(), 1);
    assert_eq!(private[0].ip_mode, IpMode::Proxy);
    assert_eq!(IpMode::Proxy.as_str(), "Proxy");
    assert_eq!(IpMode::VIP.as_str(), "VIP");
}

#[test]
fn build_ingress_skips_missing_and_null_addresses() {
    let lb = LoadBalancerAddresses {
        private_ips: vec![None, Some("10.0.0.1".to_string()), None, Some("10.0.0.2".to_string())],
        ipv4: Some(None),
        ipv4_dns_ptr: None,
        ipv6: Some(Some("2001:db8::1".to_string())),
        ipv6_dns_ptr: Some(None),
    };
    let public = build_ingress(&lb, true, false, true);
    assert_eq!(
        public,
        vec![IngressEntry {
            ip: "2001:db8::1".to_string(),
            dns: Some(None),
            ip_mode: IpMode::VIP,
        }]
    );
    let private = build_ingress(&lb, false, false, false);
    let ips: Vec<&str> = private.iter().map(|e| e.ip.as_str()).collect();
    assert_eq!(ips, vec!["10.0.0.1", "10.0.0.2"]);
    assert!(private.iter().all(|e| e.dns.is_none()));
}

#[test]
fn status_patch_target_needs_entries_and_uses_namespace() {
    let svc = ResourceMeta {
        name: Some("web".to_string()),
        generate_name: None,
        namespace: None,
        annotations: None,
    };
    assert_eq!(status_patch_target(&[], &svc, "default"), None);
    let ingress = build_ingress(&test_load_balancer(), false, false, true);
    assert_eq!(
        status_patch_target(&ingress, &svc, "default"),
        Some(("default".to_string(), "web".to_string()))
    );
    let svc_in_ns = ResourceMeta { namespace: Some("prod".to_string()), ..svc };
    assert_eq!(
        status_patch_target(&ingress, &svc_in_ns, "default"),
        Some(("prod".to_string(), "web".to_string()))
    );
}

#[test]
fn ingress_mode_field_and_values_follow_kubernetes_names() {
    assert_eq!(INGRESS_IP_MODE_FIELD, "ipMode");
    assert_eq!(IpMode::VIP.as_str(), "VIP");
    assert_eq!(IpMode::Proxy.as_str(), "Proxy");
}
