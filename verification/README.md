# robotlb

An operator that keeps Hetzner Cloud load balancers in line with Kubernetes
`LoadBalancer` Services and Gateway API resources, for clusters on Hetzner
Robot servers.

- `src/` is the verified library (Verus): how annotations and operator
  defaults become load balancer settings (`lb`, `gateway`), how a Gateway's
  balancer gets its listeners and targets from its routes (`gateway`), node selectors
  (`label_filter`), which nodes become targets (by label, or by where the
  Service's pods run) and which ports are forwarded (`reconcile`), the calls
  that bring an existing Hetzner Cloud balancer in line with the desired one
  or empty it before deletion (`lb::sync`), route backends and port mappings (`routes`), the ingress
  status (`controller::status`) and the health endpoint's answers (`health`).
- `app/` is the binary around it: command line, Kubernetes and Hetzner Cloud
  API calls (it performs the calls that `lb::sync` plans), the health HTTP
  server and the controller loops for Services and Gateways.
- `tests/` exercise the library on concrete values.
