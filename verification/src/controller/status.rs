//! Ingress status of a Service: the addresses under which its load balancer
//! is reachable.

use crate::meta::{opt_view, ResourceMeta};
use vstd::prelude::*;

verus! {

/// What the status reads of a Hetzner Cloud load balancer: the address of
/// each private network it is attached to, and its public IPv4 and IPv6
/// addresses with their reverse DNS names. The doubled `Option` follows the
/// API, where a field can be missing or null.
#[derive(Debug, Clone)]
pub struct LoadBalancerAddresses {
    pub private_ips: Vec<Option<String>>,
    pub ipv4: Option<Option<String>>,
    pub ipv4_dns_ptr: Option<Option<String>>,
    pub ipv6: Option<Option<String>>,
    pub ipv6_dns_ptr: Option<Option<String>>,
}

/// The field of an ingress entry in a Service's status that holds its
/// `IpMode`.
pub const INGRESS_IP_MODE_FIELD: &'static str = "ipMode";

/// How traffic reaches the Service's pods: through the balancer as a proxy,
/// or as if the address were the node's own.
#[derive(Debug, Clone, Copy, PartialEq, Eq, Structural)]
pub enum IpMode {
    Proxy,
    VIP,
}

impl IpMode {
    /// The name under which Kubernetes knows the mode.
    pub fn as_str(&self) -> (r: &'static str)
        ensures
            r@ == match *self {
                IpMode::Proxy => "Proxy"@,
                IpMode::VIP => "VIP"@,
            },
    {
        match self {
            IpMode::Proxy => "Proxy",
            IpMode::VIP => "VIP",
        }
    }
}

/// One entry of `status.loadBalancer.ingress`. `dns` is `None` where the
/// entry has no `dns` field at all, `Some(None)` where the field is null.
#[derive(Debug, Clone, PartialEq, Eq)]
pub struct IngressEntry {
    pub ip: String,
    pub dns: Option<Option<String>>,
    pub ip_mode: IpMode,
}

/// An ingress entry as character sequences.
pub struct IngressEntryView {
    pub ip: Seq<char>,
    pub dns: Option<Option<Seq<char>>>,
    pub ip_mode: IpMode,
}

impl View for IngressEntry {
    type V = IngressEntryView;

    open spec fn view(&self) -> IngressEntryView {
        IngressEntryView {
            ip: self.ip@,
            dns: match self.dns {
                Some(d) => Some(opt_view(d)),
                None => None,
            },
            ip_mode: self.ip_mode,
        }
    }
}

/// The views of a list of ingress entries.
pub open spec fn ingress_views(s: Seq<IngressEntry>) -> Seq<IngressEntryView> {
    s.map_values(|e: IngressEntry| e@)
}

/// A field that may be missing or null, as a plain optional value.
pub open spec fn flatten(o: Option<Option<String>>) -> Option<Seq<char>> {
    match o {
        Some(Some(s)) => Some(s@),
        _ => None,
    }
}

/// The mode that proxy mode selects.
pub open spec fn ip_mode_of(proxy_mode: bool) -> IpMode {
    if proxy_mode {
        IpMode::Proxy
    } else {
        IpMode::VIP
    }
}

/// An entry for each private network address that is set, in order,
/// without a `dns` field.
pub open spec fn private_entries(ips: Seq<Option<String>>, mode: IpMode) -> Seq<IngressEntryView>
    decreases ips.len(),
{
    if ips.len() == 0 {
        Seq::empty()
    } else {
        private_entries(ips.drop_last(), mode) + match ips.last() {
            Some(ip) => seq![IngressEntryView { ip: ip@, dns: None, ip_mode: mode }],
            None => Seq::empty(),
        }
    }
}

/// The entry for a public address with its reverse DNS name, if the
/// address is set.
pub open spec fn public_entry(
    ip: Option<Option<String>>,
    dns: Option<Option<String>>,
    mode: IpMode,
) -> Seq<IngressEntryView> {
    match flatten(ip) {
        Some(a) => seq![IngressEntryView { ip: a, dns: Some(flatten(dns)), ip_mode: mode }],
        None => Seq::empty(),
    }
}

/// The ingress entries of a balancer: without the public interface, its
/// private network addresses; with it, its public IPv4 address, then its
/// public IPv6 address if IPv6 is enabled.
pub open spec fn spec_build_ingress(
    lb: LoadBalancerAddresses,
    enable_ipv6: bool,
    proxy_mode: bool,
    public_interface: bool,
) -> Seq<IngressEntryView> {
    let mode = ip_mode_of(proxy_mode);
    if !public_interface {
        private_entries(lb.private_ips@, mode)
    } else {
        public_entry(lb.ipv4, lb.ipv4_dns_ptr, mode) + if enable_ipv6 {
            public_entry(lb.ipv6, lb.ipv6_dns_ptr, mode)
        } else {
            Seq::empty()
        }
    }
}

/// A field that may be missing or null, as a plain optional value.
fn flatten_field(o: &Option<Option<String>>) -> (r: Option<String>)
    ensures
        opt_view(r) == flatten(*o),
{
    match o {
        Some(Some(s)) => Some(s.clone()),
        _ => None,
    }
}

/// Builds the ingress status entries from a Hetzner Cloud load balancer.
pub fn build_ingress(
    hcloud_lb: &LoadBalancerAddresses,
    enable_ipv6: bool,
    proxy_mode: bool,
    public_interface: bool,
) -> (r: Vec<IngressEntry>)
    ensures
        ingress_views(r@) == spec_build_ingress(
            *hcloud_lb,
            enable_ipv6,
            proxy_mode,
            public_interface,
        ),
{
    let ip_mode = if proxy_mode {
        IpMode::Proxy
    } else {
        IpMode::VIP
    };
    let mut ingress: Vec<IngressEntry> = Vec::new();
    assert(ingress_views(ingress@) =~= Seq::<IngressEntryView>::empty());

    if !public_interface {
        let n = hcloud_lb.private_ips.len();
        for i in 0..n
            invariant
                n == hcloud_lb.private_ips@.len(),
                ip_mode == ip_mode_of(proxy_mode),
                ingress_views(ingress@) == private_entries(
                    hcloud_lb.private_ips@.take(i as int),
                    ip_mode,
                ),
        {
            let ghost before = ingress@;
            assert(hcloud_lb.private_ips@.take(i + 1).drop_last() =~= hcloud_lb.private_ips@.take(
                i as int,
            ));
            if let Some(ip) = &hcloud_lb.private_ips[i] {
                ingress.push(IngressEntry { ip: ip.clone(), dns: None, ip_mode });
                assert(ingress_views(ingress@) =~= ingress_views(before) + seq![
                    IngressEntryView { ip: ip@, dns: None, ip_mode },
                ]);
            } else {
                assert(ingress_views(ingress@) =~= ingress_views(before) + Seq::<
                    IngressEntryView,
                >::empty());
            }
        }
        assert(hcloud_lb.private_ips@.take(n as int) =~= hcloud_lb.private_ips@);
        return ingress;
    }

    let dns_ipv4 = flatten_field(&hcloud_lb.ipv4_dns_ptr);
    let ipv4 = flatten_field(&hcloud_lb.ipv4);
    let dns_ipv6 = flatten_field(&hcloud_lb.ipv6_dns_ptr);
    let ipv6 = flatten_field(&hcloud_lb.ipv6);

    if let Some(ipv4) = ipv4 {
        ingress.push(IngressEntry { ip: ipv4, dns: Some(dns_ipv4), ip_mode });
    }
    let ghost after_v4 = ingress@;
    assert(ingress_views(after_v4) =~= public_entry(
        hcloud_lb.ipv4,
        hcloud_lb.ipv4_dns_ptr,
        ip_mode,
    ));

    if enable_ipv6 {
        if let Some(ipv6) = ipv6 {
            ingress.push(IngressEntry { ip: ipv6, dns: Some(dns_ipv6), ip_mode });
        }
    }
    assert(ingress_views(ingress@) =~= ingress_views(after_v4) + if enable_ipv6 {
        public_entry(hcloud_lb.ipv6, hcloud_lb.ipv6_dns_ptr, ip_mode)
    } else {
        Seq::empty()
    });
    ingress
}

/// Where the ingress status is written: nowhere if there is no entry, else
/// the Service's namespace (or `default_namespace`) and its name.
pub fn status_patch_target(
    ingress: &[IngressEntry],
    svc: &ResourceMeta,
    default_namespace: &str,
) -> (r: Option<(String, String)>)
    ensures
        ingress@.len() == 0 ==> r is None,
        ingress@.len() > 0 ==> (r matches Some((namespace, name)) && namespace@ == match svc.namespace {
            Some(ns) => ns@,
            None => default_namespace@,
        } && name@ == svc.spec_name_any()),
{
    if ingress.len() == 0 {
        return None;
    }
    let namespace = match &svc.namespace {
        Some(ns) => ns.clone(),
        None => default_namespace.to_owned(),
    };
    Some((namespace, svc.name_any()))
}

/// Every private entry is in the given mode and has no `dns` field.
pub proof fn lemma_private_entries_shape(ips: Seq<Option<String>>, mode: IpMode)
    ensures
        private_entries(ips, mode).len() <= ips.len(),
        forall|i: int|
            0 <= i < private_entries(ips, mode).len() ==> (#[trigger] private_entries(
                ips,
                mode,
            )[i]).ip_mode == mode && private_entries(ips, mode)[i].dns is None,
    decreases ips.len(),
{
    if ips.len() > 0 {
        lemma_private_entries_shape(ips.drop_last(), mode);
        let earlier = private_entries(ips.drop_last(), mode);
        assert forall|i: int| 0 <= i < private_entries(ips, mode).len() implies (
        #[trigger] private_entries(ips, mode)[i]).ip_mode == mode && private_entries(
            ips,
            mode,
        )[i].dns is None by {
            if i < earlier.len() {
                assert(private_entries(ips, mode)[i] == earlier[i]);
            }
        }
    }
}

/// Every ingress entry carries the mode that proxy mode selects: `Proxy`
/// with proxy mode, `VIP` without. Without the public interface there is
/// one entry per private address at most, none with a `dns` field; with it
/// there are at most two entries, each with a `dns` field.
pub proof fn lemma_ingress_shape(
    lb: LoadBalancerAddresses,
    enable_ipv6: bool,
    proxy_mode: bool,
    public_interface: bool,
)
    ensures
        forall|i: int|
            0 <= i < spec_build_ingress(lb, enable_ipv6, proxy_mode, public_interface).len()
                ==> (#[trigger] spec_build_ingress(
                lb,
                enable_ipv6,
                proxy_mode,
                public_interface,
            )[i]).ip_mode == ip_mode_of(proxy_mode),
        !public_interface ==> spec_build_ingress(lb, enable_ipv6, proxy_mode, public_interface).len()
            <= lb.private_ips@.len(),
        !public_interface ==> forall|i: int|
            0 <= i < spec_build_ingress(lb, enable_ipv6, proxy_mode, public_interface).len()
                ==> (#[trigger] spec_build_ingress(
                lb,
                enable_ipv6,
                proxy_mode,
                public_interface,
            )[i]).dns is None,
        public_interface ==> spec_build_ingress(lb, enable_ipv6, proxy_mode, public_interface).len()
            <= 2,
        public_interface ==> forall|i: int|
            0 <= i < spec_build_ingress(lb, enable_ipv6, proxy_mode, public_interface).len()
                ==> (#[trigger] spec_build_ingress(
                lb,
                enable_ipv6,
                proxy_mode,
                public_interface,
            )[i]).dns is Some,
{
    lemma_private_entries_shape(lb.private_ips@, ip_mode_of(proxy_mode));
}

/// Enabling IPv6 only appends: the entries without it are a prefix of the
/// entries with it, and it changes nothing without the public interface.
pub proof fn lemma_ipv6_only_appends(
    lb: LoadBalancerAddresses,
    proxy_mode: bool,
    public_interface: bool,
)
    ensures
        spec_build_ingress(lb, true, proxy_mode, public_interface).take(
            spec_build_ingress(lb, false, proxy_mode, public_interface).len() as int,
        ) == spec_build_ingress(lb, false, proxy_mode, public_interface),
        !public_interface ==> spec_build_ingress(lb, true, proxy_mode, public_interface)
            == spec_build_ingress(lb, false, proxy_mode, public_interface),
{
    let without = spec_build_ingress(lb, false, proxy_mode, public_interface);
    let with = spec_build_ingress(lb, true, proxy_mode, public_interface);
    if public_interface {
        assert(without =~= public_entry(lb.ipv4, lb.ipv4_dns_ptr, ip_mode_of(proxy_mode)));
        assert(with.take(without.len() as int) =~= without);
    } else {
        assert(with.take(without.len() as int) =~= without);
    }
}

} // verus!
