//! Explicit indexed network topologies: families of links given by affine maps over the
//! node domain, interfaces to memories, and the edges they denote.
use vstd::prelude::*;

use super::axis::{extents, grid, Axis};
use super::memory::MemoryEndpoint;
use super::resource::Resource;
use crate::math::affine::{apply_fits, apply_outcome, AffineMap, AffineMapModel};
use crate::math::expr::Expr;
use crate::text::decimal;

verus! {

/// A homogeneous family of directed physical links.
#[derive(Debug)]
pub struct NetworkLink {
    pub name: String,
    pub map: AffineMap,
    pub bandwidth: Expr,
    pub latency: Option<Expr>,
    pub resource: Option<String>,
}

impl NetworkLink {
    pub fn new(name: &str, map: AffineMap, bandwidth: Expr) -> (r: NetworkLink)
        ensures
            r.name@ == name@,
            r.map == map,
            r.bandwidth == bandwidth,
            r.latency is None,
            r.resource is None,
    {
        NetworkLink { name: crate::text::owned(name), map, bandwidth, latency: None, resource: None }
    }

    pub fn with_latency(self, latency: Expr) -> (r: NetworkLink)
        ensures
            r == (NetworkLink { latency: Some(latency), ..self }),
    {
        let mut l = self;
        l.latency = Some(latency);
        l
    }

    pub fn with_resource(self, resource: &str) -> (r: NetworkLink)
        ensures
            r.name == self.name,
            r.map == self.map,
            r.bandwidth == self.bandwidth,
            r.latency == self.latency,
            r.resource matches Some(x) && x@ == resource@,
    {
        let mut l = self;
        l.resource = Some(crate::text::owned(resource));
        l
    }
}

/// Attachment between a network and a memory selection.
#[derive(Debug)]
pub struct NetworkInterface {
    pub name: String,
    pub endpoint: MemoryEndpoint,
    pub injection_bandwidth: Option<Expr>,
    pub ejection_bandwidth: Option<Expr>,
}

impl NetworkInterface {
    pub fn new(name: &str, endpoint: MemoryEndpoint) -> (r: NetworkInterface)
        ensures
            r.name@ == name@,
            r.endpoint == endpoint,
            r.injection_bandwidth is None,
            r.ejection_bandwidth is None,
    {
        NetworkInterface { name: crate::text::owned(name), endpoint, injection_bandwidth: None, ejection_bandwidth: None }
    }

    pub fn with_injection_bandwidth(self, bandwidth: Expr) -> (r: NetworkInterface)
        ensures
            r == (NetworkInterface { injection_bandwidth: Some(bandwidth), ..self }),
    {
        let mut i = self;
        i.injection_bandwidth = Some(bandwidth);
        i
    }

    pub fn with_ejection_bandwidth(self, bandwidth: Expr) -> (r: NetworkInterface)
        ensures
            r == (NetworkInterface { ejection_bandwidth: Some(bandwidth), ..self }),
    {
        let mut i = self;
        i.ejection_bandwidth = Some(bandwidth);
        i
    }
}

/// An indexed network: a node domain, link families, interfaces and resources.
#[derive(Debug)]
pub struct NetworkTopology {
    pub name: String,
    pub dimensions: Vec<Axis>,
    pub links: Vec<NetworkLink>,
    pub interfaces: Vec<NetworkInterface>,
    pub resources: Vec<Resource>,
}

/// One directed edge between two nodes, from one link family.
#[derive(Debug, PartialEq, Eq)]
pub struct NetworkEdge {
    pub link: String,
    pub source: Vec<u64>,
    pub target: Vec<u64>,
    pub resource: Option<String>,
    pub resource_indices: Vec<u64>,
}

/// Model of an edge.
pub ghost struct EdgeModel {
    pub link: Seq<char>,
    pub source: Seq<u64>,
    pub target: Seq<u64>,
    pub resource: Option<Seq<char>>,
    pub resource_indices: Seq<u64>,
}

impl View for NetworkEdge {
    type V = EdgeModel;

    open spec fn view(&self) -> EdgeModel {
        EdgeModel {
            link: self.link@,
            source: self.source@,
            target: self.target@,
            resource: match self.resource {
                Some(r) => Some(r@),
                None => None,
            },
            resource_indices: self.resource_indices@,
        }
    }
}

impl Clone for NetworkEdge {
    fn clone(&self) -> (r: Self)
        ensures
            r@ == self@,
    {
        NetworkEdge {
            link: self.link.clone(),
            source: clone_u64s(&self.source),
            target: clone_u64s(&self.target),
            resource: match &self.resource {
                Some(r) => Some(r.clone()),
                None => None,
            },
            resource_indices: clone_u64s(&self.resource_indices),
        }
    }
}

impl NetworkTopology {
    pub fn new(name: &str, dimensions: Vec<Axis>) -> (r: NetworkTopology)
        ensures
            r.name@ == name@,
            r.dimensions == dimensions,
            r.links@.len() == 0,
            r.interfaces@.len() == 0,
            r.resources@.len() == 0,
    {
        NetworkTopology {
            name: crate::text::owned(name),
            dimensions,
            links: Vec::new(),
            interfaces: Vec::new(),
            resources: Vec::new(),
        }
    }

    pub fn with_link(self, link: NetworkLink) -> (r: NetworkTopology)
        ensures
            r.name == self.name,
            r.dimensions == self.dimensions,
            r.links@ == self.links@.push(link),
            r.interfaces == self.interfaces,
            r.resources == self.resources,
    {
        let mut t = self;
        t.links.push(link);
        t
    }

    pub fn with_interface(self, interface: NetworkInterface) -> (r: NetworkTopology)
        ensures
            r.name == self.name,
            r.dimensions == self.dimensions,
            r.links == self.links,
            r.interfaces@ == self.interfaces@.push(interface),
            r.resources == self.resources,
    {
        let mut t = self;
        t.interfaces.push(interface);
        t
    }

    pub fn with_resource(self, resource: Resource) -> (r: NetworkTopology)
        ensures
            r.name == self.name,
            r.dimensions == self.dimensions,
            r.links == self.links,
            r.interfaces == self.interfaces,
            r.resources@ == self.resources@.push(resource),
    {
        let mut t = self;
        t.resources.push(resource);
        t
    }
}

// ---------------------------------------------------------------------------
// Edges

/// A node point as signed coordinates.
pub open spec fn signed(p: Seq<u64>) -> Seq<i64> {
    p.map_values(|v: u64| v as i64)
}

/// Every coordinate of `t` lies in its dimension.
pub open spec fn in_dims(t: Seq<int>, dims: Seq<Axis>) -> bool {
    t.len() == dims.len() && forall|i: int| 0 <= i < t.len() ==> 0 <= #[trigger] t[i] < dims[i].extent
}

/// The first resource of this name.
pub open spec fn find_resource(rs: Seq<Resource>, n: Seq<char>) -> Option<Resource>
    decreases rs.len(),
{
    if rs.len() == 0 {
        None
    } else if rs[0].name@ == n {
        Some(rs[0])
    } else {
        find_resource(rs.drop_first(), n)
    }
}

/// The edge of `link` out of `source`, if its map sends the source into the domain.
pub open spec fn edge_of(net: NetworkTopology, link: NetworkLink, source: Seq<u64>) -> Option<EdgeModel> {
    match apply_outcome(link.map@, signed(source)) {
        Ok(t) => if in_dims(t, net.dimensions@) {
            Some(EdgeModel {
                link: link.name@,
                source,
                target: t.map_values(|v: int| v as u64),
                resource: match link.resource {
                    Some(r) => Some(r@),
                    None => None,
                },
                resource_indices: match link.resource {
                    Some(r) => match find_resource(net.resources@, r@) {
                        Some(res) => if res.indices@.len() > 0 { source } else { Seq::empty() },
                        None => Seq::empty(),
                    },
                    None => Seq::empty(),
                },
            })
        } else {
            None
        },
        Err(_) => None,
    }
}

/// The edges of one link family, over the given source points in order.
pub open spec fn link_edges(net: NetworkTopology, link: NetworkLink, points: Seq<Seq<u64>>) -> Seq<EdgeModel>
    decreases points.len(),
{
    if points.len() == 0 {
        Seq::empty()
    } else {
        link_edges(net, link, points.drop_last()) + match edge_of(net, link, points.last()) {
            Some(e) => seq![e],
            None => Seq::empty(),
        }
    }
}

/// The edges of the link families, in order.
pub open spec fn all_edges(net: NetworkTopology, links: Seq<NetworkLink>) -> Seq<EdgeModel>
    decreases links.len(),
{
    if links.len() == 0 {
        Seq::empty()
    } else {
        all_edges(net, links.drop_last()) + link_edges(net, links.last(), grid(extents(net.dimensions@)))
    }
}

/// Applying every link map to every node stays within `i64`.
pub open spec fn edges_fit(net: NetworkTopology) -> bool {
    forall|l: int, p: int| 0 <= l < net.links@.len() && 0 <= p < grid(extents(net.dimensions@)).len()
        ==> apply_fits(#[trigger] net.links@[l].map@, signed(#[trigger] grid(extents(net.dimensions@))[p]))
}

pub open spec fn edges_model(v: Seq<NetworkEdge>) -> Seq<EdgeModel> {
    v.map_values(|e: NetworkEdge| e@)
}

fn x_find_resource<'a>(rs: &'a Vec<Resource>, n: &str) -> (r: Option<&'a Resource>)
    ensures
        match r {
            Some(x) => find_resource(rs@, n@) == Some(*x),
            None => find_resource(rs@, n@) is None,
        },
{
    let mut i: usize = 0;
    proof { assert(rs@.skip(0) =~= rs@); }
    while i < rs.len()
        invariant
            i <= rs@.len(),
            find_resource(rs@, n@) == find_resource(rs@.skip(i as int), n@),
        decreases rs.len() - i,
    {
        proof {
            assert(rs@.skip(i as int)[0] == rs@[i as int]);
            assert(rs@.skip(i as int).drop_first() =~= rs@.skip(i + 1));
        }
        if crate::text::str_eq(rs[i].name.as_str(), n) {
            return Some(&rs[i]);
        }
        i += 1;
    }
    None
}

/// A copy of a list of numbers.
pub fn clone_u64s(v: &Vec<u64>) -> (r: Vec<u64>)
    ensures
        r@ == v@,
{
    let mut out: Vec<u64> = Vec::new();
    let mut i: usize = 0;
    while i < v.len()
        invariant
            i <= v@.len(),
            out@ == v@.take(i as int),
        decreases v.len() - i,
    {
        out.push(v[i]);
        proof { assert(v@.take(i + 1) =~= v@.take(i as int).push(v@[i as int])); }
        i += 1;
    }
    proof { assert(v@.take(v@.len() as int) =~= v@); }
    out
}

fn x_edge_of(net: &NetworkTopology, link: &NetworkLink, source: &Vec<u64>) -> (r: Option<NetworkEdge>)
    requires
        apply_fits(link.map@, signed(source@)),
    ensures
        match r {
            Some(e) => edge_of(*net, *link, source@) == Some(e@),
            None => edge_of(*net, *link, source@) is None,
        },
{
    let mut sv: Vec<i64> = Vec::new();
    let mut i: usize = 0;
    while i < source.len()
        invariant
            i <= source@.len(),
            sv@.len() == i,
            forall|k: int| 0 <= k < i ==> #[trigger] sv@[k] == source@[k] as i64,
        decreases source.len() - i,
    {
        sv.push(source[i] as i64);
        i += 1;
    }
    proof { assert(sv@ =~= signed(source@)); }
    let t = match link.map.apply(sv.as_slice()) {
        Err(_) => return None,
        Ok(t) => t,
    };
    let ghost tm = crate::math::affine::ints(t@);
    proof {
        assert(apply_outcome(link.map@, sv@) == Ok::<Seq<int>, crate::math::affine::AffineErrorModel>(tm));
        assert(apply_outcome(link.map@, signed(source@)) == Ok::<Seq<int>, crate::math::affine::AffineErrorModel>(tm));
        assert(tm.len() == t@.len());
    }
    if t.len() != net.dimensions.len() {
        proof { assert(!in_dims(tm, net.dimensions@)); }
        return None;
    }
    let mut j: usize = 0;
    let mut target: Vec<u64> = Vec::new();
    while j < t.len()
        invariant
            j <= t@.len(),
            t@.len() == net.dimensions@.len(),
            tm == crate::math::affine::ints(t@),
            apply_outcome(link.map@, signed(source@)) == Ok::<Seq<int>, crate::math::affine::AffineErrorModel>(tm),
            target@.len() == j,
            forall|k: int| 0 <= k < j ==> 0 <= #[trigger] tm[k] < net.dimensions@[k].extent,
            forall|k: int| 0 <= k < j ==> #[trigger] target@[k] == tm[k] as u64,
        decreases t.len() - j,
    {
        if t[j] < 0 || (t[j] as u64) >= net.dimensions[j].extent {
            proof { assert(!in_dims(tm, net.dimensions@)) by { assert(!(0 <= tm[j as int] < net.dimensions@[j as int].extent)); } }
            return None;
        }
        let v = t[j] as u64;
        proof {
            assert(tm[j as int] == t@[j as int] as int);
            assert(v as int == t@[j as int] as int);
        }
        let ghost before = target@;
        target.push(v);
        proof {
            assert(0 <= tm[j as int] < net.dimensions@[j as int].extent);
            assert forall|k: int| 0 <= k < j + 1 implies #[trigger] target@[k] == tm[k] as u64 by {
                if k < j {
                    assert(target@[k] == before[k]);
                } else {
                    assert(target@[k] == v);
                }
            }
        }
        j += 1;
    }
    proof {
        assert(in_dims(tm, net.dimensions@));
        assert(target@ =~= tm.map_values(|v: int| v as u64));
    }
    let resource_indices = match &link.resource {
        Some(rn) => match x_find_resource(&net.resources, rn.as_str()) {
            Some(res) => if res.indices.len() > 0 { clone_u64s(source) } else { Vec::new() },
            None => Vec::new(),
        },
        None => Vec::new(),
    };
    Some(NetworkEdge {
        link: link.name.clone(),
        source: clone_u64s(source),
        target,
        resource: match &link.resource {
            Some(r) => Some(r.clone()),
            None => None,
        },
        resource_indices,
    })
}

impl NetworkTopology {
    /// The directed edges of every link family: for each link, in order, the nodes whose
    /// image lies in the domain, in point order.
    pub fn edges(&self) -> (r: Vec<NetworkEdge>)
        requires
            edges_fit(*self),
        ensures
            edges_model(r@) == all_edges(*self, self.links@),
    {
        let points = super::axis::axis_points(self.dimensions.as_slice());
        let ghost g = grid(extents(self.dimensions@));
        let mut out: Vec<NetworkEdge> = Vec::new();
        let mut l: usize = 0;
        proof { assert(edges_model(out@) =~= all_edges(*self, self.links@.take(0))); }
        while l < self.links.len()
            invariant
                l <= self.links@.len(),
                g == grid(extents(self.dimensions@)),
                points@.len() == g.len(),
                forall|i: int| 0 <= i < points@.len() ==> #[trigger] points@[i]@ == g[i],
                edges_fit(*self),
                edges_model(out@) == all_edges(*self, self.links@.take(l as int)),
            decreases self.links.len() - l,
        {
            let link = &self.links[l];
            let ghost base = edges_model(out@);
            let mut p: usize = 0;
            proof { assert(g.take(0) =~= Seq::<Seq<u64>>::empty()); assert(base + link_edges(*self, *link, g.take(0)) =~= base); }
            while p < points.len()
                invariant
                    p <= points@.len(),
                    l < self.links@.len(),
                    *link == self.links@[l as int],
                    g == grid(extents(self.dimensions@)),
                    points@.len() == g.len(),
                    forall|i: int| 0 <= i < points@.len() ==> #[trigger] points@[i]@ == g[i],
                    edges_fit(*self),
                    edges_model(out@) == base + link_edges(*self, *link, g.take(p as int)),
                decreases points.len() - p,
            {
                proof {
                    assert(g.take(p + 1).drop_last() =~= g.take(p as int));
                    assert(g.take(p + 1).last() == points@[p as int]@);
                    assert(apply_fits(self.links@[l as int].map@, signed(g[p as int])));
                }
                let ghost before = out@;
                match x_edge_of(self, link, &points[p]) {
                    Some(e) => {
                        let ghost em = e@;
                        out.push(e);
                        proof { assert(edges_model(out@) =~= edges_model(before) + seq![em]); }
                    },
                    None => {
                        proof { assert(edges_model(out@) =~= edges_model(before) + Seq::<EdgeModel>::empty()); }
                    },
                }
                p += 1;
            }
            proof {
                assert(g.take(points@.len() as int) =~= g);
                assert(self.links@.take(l + 1).drop_last() =~= self.links@.take(l as int));
                assert(self.links@.take(l + 1).last() == *link);
            }
            l += 1;
        }
        proof { assert(self.links@.take(self.links@.len() as int) =~= self.links@); }
        out
    }
}

/// A link's map has the network's rank and its axes are network dimensions with the same
/// extents, and its resource, if any, is a resource of the network.
pub open spec fn link_ok(net: NetworkTopology, l: NetworkLink) -> bool {
    let n = net.dimensions@.len();
    &&& l.map@.source.len() == n && l.map@.target.len() == n && l.map@.exprs.len() == n
    &&& super::checks::axes_known(l.map@.source, net.dimensions@)
    &&& super::checks::axes_known(l.map@.target, net.dimensions@)
    &&& l.resource matches Some(r) ==> exists|k: int| 0 <= k < net.resources@.len() && #[trigger] net.resources@[k].name@ == r@
}

/// The names of links, interfaces, resources and dimensions.
pub open spec fn link_names(v: Seq<NetworkLink>) -> Seq<Seq<char>> {
    v.map_values(|x: NetworkLink| x.name@)
}

pub open spec fn interface_names(v: Seq<NetworkInterface>) -> Seq<Seq<char>> {
    v.map_values(|x: NetworkInterface| x.name@)
}

pub open spec fn resource_names(v: Seq<Resource>) -> Seq<Seq<char>> {
    v.map_values(|x: Resource| x.name@)
}

pub open spec fn dimension_names(v: Seq<Axis>) -> Seq<Seq<char>> {
    v.map_values(|x: Axis| x.name@)
}

/// A network resource is valid and either unindexed or indexed by the node domain.
pub open spec fn network_resource_ok(net: NetworkTopology, r: Resource) -> bool {
    &&& super::resource::resource_problem(r) is None
    &&& r.indices@.len() == 0 || (r.indices@.len() == net.dimensions@.len()
        && super::checks::is_prefix_domain(r.indices@, net.dimensions@))
}

/// What `NetworkTopology::validate` accepts.
pub open spec fn network_ok(net: NetworkTopology) -> bool {
    &&& net.name@.len() > 0
    &&& super::checks::distinct_names(dimension_names(net.dimensions@))
    &&& forall|k: int| 0 <= k < net.resources@.len() ==> network_resource_ok(net, #[trigger] net.resources@[k])
    &&& super::checks::distinct_names(link_names(net.links@))
    &&& super::checks::distinct_names(interface_names(net.interfaces@))
    &&& super::checks::distinct_names(resource_names(net.resources@))
    &&& forall|k: int| 0 <= k < net.links@.len() ==> link_ok(net, #[trigger] net.links@[k])
}

/// The message for the first repeated name of a network's list.
pub open spec fn net_dup_error(names: Seq<Seq<char>>, kind: Seq<char>) -> Option<Seq<char>> {
    match super::checks::first_dup(names) {
        Some(n) => Some("duplicate network "@ + kind + " '"@ + n + "'"@),
        None => None,
    }
}

/// A resource that is invalid or indexed by something other than the node domain.
pub open spec fn resource_bad(net: NetworkTopology) -> spec_fn(Resource) -> bool {
    |r: Resource| !network_resource_ok(net, r)
}

/// The message for the first such resource.
pub open spec fn resources_error(net: NetworkTopology) -> Option<Seq<char>> {
    let k = super::resolve::first_index(net.resources@, resource_bad(net));
    if k < 0 {
        None
    } else {
        match super::resource::resource_problem(net.resources@[k]) {
            Some(m) => Some(m),
            None => Some("network '"@ + net.name@ + "' resource '"@ + net.resources@[k].name@
                + "' indices must be empty or match the node domain"@),
        }
    }
}

/// An axis that is not a network dimension of the same extent.
pub open spec fn axis_bad(dims: Seq<Axis>) -> spec_fn(Axis) -> bool {
    |a: Axis| {
        let i = super::checks::axis_index(dims, a.name@);
        !(i >= 0 && dims[i].extent == a.extent)
    }
}

/// The message for the first axis of a link map that is unknown or has another extent.
pub open spec fn link_axes_error(net: NetworkTopology, l: NetworkLink, axes: Seq<Axis>) -> Option<Seq<char>> {
    let k = super::resolve::first_index(axes, axis_bad(net.dimensions@));
    if k < 0 {
        None
    } else {
        let i = super::checks::axis_index(net.dimensions@, axes[k].name@);
        if i < 0 {
            Some("network '"@ + net.name@ + "' link '"@ + l.name@ + "' uses unknown dimension '"@ + axes[k].name@ + "'"@)
        } else {
            Some("network '"@ + net.name@ + "' link '"@ + l.name@ + "' dimension '"@ + axes[k].name@ + "' has size "@
                + decimal(axes[k].extent as nat) + ", expected "@ + decimal(net.dimensions@[i].extent as nat))
        }
    }
}

/// The message for a link: wrong rank, a bad source axis, a bad target axis, or an
/// unknown resource.
pub open spec fn link_error(net: NetworkTopology, l: NetworkLink) -> Option<Seq<char>> {
    let n = net.dimensions@.len();
    if !(l.map@.source.len() == n && l.map@.target.len() == n && l.map@.exprs.len() == n) {
        Some("network '"@ + net.name@ + "' link '"@ + l.name@ + "' rank does not match its "@ + decimal(n) + "-D node domain"@)
    } else if link_axes_error(net, l, l.map@.source) is Some {
        link_axes_error(net, l, l.map@.source)
    } else if link_axes_error(net, l, l.map@.target) is Some {
        link_axes_error(net, l, l.map@.target)
    } else if l.resource matches Some(r) && !(exists|k: int| 0 <= k < net.resources@.len() && #[trigger] net.resources@[k].name@ == r@) {
        Some("network '"@ + net.name@ + "' link '"@ + l.name@ + "' uses unknown resource '"@ + l.resource->0@ + "'"@)
    } else {
        None
    }
}

pub open spec fn link_bad(net: NetworkTopology) -> spec_fn(NetworkLink) -> bool {
    |l: NetworkLink| link_error(net, l) is Some
}

/// The message `NetworkTopology::validate` gives: the first check to fail, in the order
/// name, dimension names, resources, link names, interface names, resource names, links.
pub open spec fn topology_error(net: NetworkTopology) -> Option<Seq<char>> {
    if net.name@.len() == 0 {
        Some("network name cannot be empty"@)
    } else if net_dup_error(dimension_names(net.dimensions@), "dimension"@) is Some {
        net_dup_error(dimension_names(net.dimensions@), "dimension"@)
    } else if resources_error(net) is Some {
        resources_error(net)
    } else if net_dup_error(link_names(net.links@), "link"@) is Some {
        net_dup_error(link_names(net.links@), "link"@)
    } else if net_dup_error(interface_names(net.interfaces@), "interface"@) is Some {
        net_dup_error(interface_names(net.interfaces@), "interface"@)
    } else if net_dup_error(resource_names(net.resources@), "resource"@) is Some {
        net_dup_error(resource_names(net.resources@), "resource"@)
    } else {
        let k = super::resolve::first_index(net.links@, link_bad(net));
        if k < 0 { None } else { link_error(net, net.links@[k]) }
    }
}

fn unique_in_network(names: &Vec<&str>, kind: &str) -> (r: Result<(), String>)
    ensures
        r is Ok <==> super::checks::distinct_names(crate::text::str_texts(names@)),
        match r {
            Ok(()) => net_dup_error(crate::text::str_texts(names@), kind@) is None,
            Err(m) => net_dup_error(crate::text::str_texts(names@), kind@) == Some(m@),
        },
{
    proof { super::checks::lemma_first_dup_distinct(crate::text::str_texts(names@)); }
    match super::checks::validate_unique(names, kind) {
        Ok(()) => Ok(()),
        Err(e) => {
            let name = match e {
                super::architecture::ArchitectureError::DuplicateName { kind: _, name } => name,
                _ => crate::text::owned(""),
            };
            let mut m = crate::text::owned("duplicate network ");
            crate::text::push_str(&mut m, kind);
            crate::text::push_str(&mut m, " '");
            crate::text::push_str(&mut m, name.as_str());
            crate::text::push_str(&mut m, "'");
            proof {
                let n = super::checks::first_dup(crate::text::str_texts(names@))->0;
                assert(m@ =~= "duplicate network "@ + kind@ + " '"@ + n + "'"@);
            }
            Err(m)
        },
    }
}

fn link_axes_known(net: &NetworkTopology, link: &NetworkLink, axes: &[Axis]) -> (r: Result<(), String>)
    ensures
        r is Ok <==> super::checks::axes_known(axes@, net.dimensions@),
        match r {
            Ok(()) => link_axes_error(*net, *link, axes@) is None,
            Err(m) => link_axes_error(*net, *link, axes@) == Some(m@),
        },
{
    let ghost bad = axis_bad(net.dimensions@);
    let mut k: usize = 0;
    while k < axes.len()
        invariant
            k <= axes@.len(),
            bad == axis_bad(net.dimensions@),
            forall|j: int| 0 <= j < k ==> !bad(#[trigger] axes@[j]),
            forall|j: int| 0 <= j < k ==> {
                let a = super::checks::axis_index(net.dimensions@, (#[trigger] axes@[j]).name@);
                a >= 0 && net.dimensions@[a].extent == axes@[j].extent
            },
        decreases axes.len() - k,
    {
        let axis = &axes[k];
        proof { super::resolve::lemma_first_index_is_first(net.dimensions@, super::checks::axis_named(axis.name@)); }
        match super::checks::find_axis(net.dimensions.as_slice(), axis.name.as_str()) {
            None => {
                let mut m = crate::text::owned("network '");
                crate::text::push_str(&mut m, net.name.as_str());
                crate::text::push_str(&mut m, "' link '");
                crate::text::push_str(&mut m, link.name.as_str());
                crate::text::push_str(&mut m, "' uses unknown dimension '");
                crate::text::push_str(&mut m, axis.name.as_str());
                crate::text::push_str(&mut m, "'");
                proof {
                    super::resolve::lemma_first_index(axes@, bad, k as int);
                    assert(m@ =~= "network '"@ + net.name@ + "' link '"@ + link.name@ + "' uses unknown dimension '"@ + axes@[k as int].name@ + "'"@);
                }
                return Err(m);
            },
            Some(a) => {
                if net.dimensions[a].extent != axis.extent {
                    let mut m = crate::text::owned("network '");
                    crate::text::push_str(&mut m, net.name.as_str());
                    crate::text::push_str(&mut m, "' link '");
                    crate::text::push_str(&mut m, link.name.as_str());
                    crate::text::push_str(&mut m, "' dimension '");
                    crate::text::push_str(&mut m, axis.name.as_str());
                    crate::text::push_str(&mut m, "' has size ");
                    crate::text::push_decimal(&mut m, axis.extent);
                    crate::text::push_str(&mut m, ", expected ");
                    crate::text::push_decimal(&mut m, net.dimensions[a].extent);
                    proof {
                        super::resolve::lemma_first_index(axes@, bad, k as int);
                        assert(m@ =~= "network '"@ + net.name@ + "' link '"@ + link.name@ + "' dimension '"@ + axes@[k as int].name@ + "' has size "@
                            + decimal(axes@[k as int].extent as nat) + ", expected "@ + decimal(net.dimensions@[a as int].extent as nat));
                    }
                    return Err(m);
                }
            },
        }
        k += 1;
    }
    proof { super::resolve::lemma_first_index(axes@, bad, k as int); }
    Ok(())
}

impl NetworkTopology {
    /// Checks the topology: a name, unique dimensions, links, interfaces and resources,
    /// resources indexed by nothing or by the node domain, and links whose maps have the
    /// network's rank over its dimensions and whose resources exist.
    pub fn validate(&self) -> (r: Result<(), String>)
        ensures
            r is Ok <==> network_ok(*self),
            match r {
                Ok(()) => topology_error(*self) is None,
                Err(m) => topology_error(*self) == Some(m@),
            },
    {
        if crate::text::is_empty(self.name.as_str()) {
            return Err(crate::text::owned("network name cannot be empty"));
        }
        let mut dims: Vec<&str> = Vec::new();
        let mut i: usize = 0;
        while i < self.dimensions.len()
            invariant
                i <= self.dimensions@.len(),
                dims@.len() == i,
                forall|k: int| 0 <= k < i ==> (#[trigger] dims@[k])@ == self.dimensions@[k].name@,
            decreases self.dimensions.len() - i,
        {
            dims.push(self.dimensions[i].name.as_str());
            i += 1;
        }
        proof { assert(crate::text::str_texts(dims@) =~= dimension_names(self.dimensions@)); }
        unique_in_network(&dims, "dimension")?;
        let ghost rb = resource_bad(*self);
        let mut i: usize = 0;
        while i < self.resources.len()
            invariant
                i <= self.resources@.len(),
                rb == resource_bad(*self),
                self.name@.len() > 0,
                net_dup_error(dimension_names(self.dimensions@), "dimension"@) is None,
                forall|k: int| 0 <= k < i ==> network_resource_ok(*self, #[trigger] self.resources@[k]),
                forall|k: int| 0 <= k < i ==> !rb(#[trigger] self.resources@[k]),
            decreases self.resources.len() - i,
        {
            let resource = &self.resources[i];
            match resource.validate() {
                Ok(()) => {},
                Err(m) => {
                    proof { super::resolve::lemma_first_index(self.resources@, rb, i as int); }
                    return Err(m);
                },
            }
            if resource.indices.len() != 0 && !super::checks::same_axes(resource.indices.as_slice(), self.dimensions.as_slice()) {
                let mut m = crate::text::owned("network '");
                crate::text::push_str(&mut m, self.name.as_str());
                crate::text::push_str(&mut m, "' resource '");
                crate::text::push_str(&mut m, resource.name.as_str());
                crate::text::push_str(&mut m, "' indices must be empty or match the node domain");
                proof {
                    super::resolve::lemma_first_index(self.resources@, rb, i as int);
                    assert(m@ =~= "network '"@ + self.name@ + "' resource '"@ + self.resources@[i as int].name@
                        + "' indices must be empty or match the node domain"@);
                }
                return Err(m);
            }
            i += 1;
        }
        proof { super::resolve::lemma_first_index(self.resources@, rb, i as int); }
        let mut names: Vec<&str> = Vec::new();
        let mut i: usize = 0;
        while i < self.links.len()
            invariant
                i <= self.links@.len(),
                names@.len() == i,
                forall|k: int| 0 <= k < i ==> (#[trigger] names@[k])@ == self.links@[k].name@,
            decreases self.links.len() - i,
        {
            names.push(self.links[i].name.as_str());
            i += 1;
        }
        proof { assert(crate::text::str_texts(names@) =~= link_names(self.links@)); }
        unique_in_network(&names, "link")?;
        let mut names: Vec<&str> = Vec::new();
        let mut i: usize = 0;
        while i < self.interfaces.len()
            invariant
                i <= self.interfaces@.len(),
                names@.len() == i,
                forall|k: int| 0 <= k < i ==> (#[trigger] names@[k])@ == self.interfaces@[k].name@,
            decreases self.interfaces.len() - i,
        {
            names.push(self.interfaces[i].name.as_str());
            i += 1;
        }
        proof { assert(crate::text::str_texts(names@) =~= interface_names(self.interfaces@)); }
        unique_in_network(&names, "interface")?;
        let mut names: Vec<&str> = Vec::new();
        let mut i: usize = 0;
        while i < self.resources.len()
            invariant
                i <= self.resources@.len(),
                names@.len() == i,
                forall|k: int| 0 <= k < i ==> (#[trigger] names@[k])@ == self.resources@[k].name@,
            decreases self.resources.len() - i,
        {
            names.push(self.resources[i].name.as_str());
            i += 1;
        }
        proof { assert(crate::text::str_texts(names@) =~= resource_names(self.resources@)); }
        unique_in_network(&names, "resource")?;
        let ghost lb = link_bad(*self);
        let mut l: usize = 0;
        while l < self.links.len()
            invariant
                l <= self.links@.len(),
                lb == link_bad(*self),
                self.name@.len() > 0,
                net_dup_error(dimension_names(self.dimensions@), "dimension"@) is None,
                resources_error(*self) is None,
                net_dup_error(link_names(self.links@), "link"@) is None,
                net_dup_error(interface_names(self.interfaces@), "interface"@) is None,
                net_dup_error(resource_names(self.resources@), "resource"@) is None,
                forall|k: int| 0 <= k < l ==> link_ok(*self, #[trigger] self.links@[k]),
                forall|k: int| 0 <= k < l ==> !lb(#[trigger] self.links@[k]),
            decreases self.links.len() - l,
        {
            let link = &self.links[l];
            let n = self.dimensions.len();
            if link.map.source_axes().len() != n || link.map.target_axes().len() != n || link.map.expressions().len() != n {
                let mut m = crate::text::owned("network '");
                crate::text::push_str(&mut m, self.name.as_str());
                crate::text::push_str(&mut m, "' link '");
                crate::text::push_str(&mut m, link.name.as_str());
                crate::text::push_str(&mut m, "' rank does not match its ");
                crate::text::push_decimal(&mut m, n as u64);
                crate::text::push_str(&mut m, "-D node domain");
                proof {
                    super::resolve::lemma_first_index(self.links@, lb, l as int);
                    assert(m@ =~= "network '"@ + self.name@ + "' link '"@ + link.name@ + "' rank does not match its "@
                        + decimal(n as nat) + "-D node domain"@);
                }
                return Err(m);
            }
            match link_axes_known(self, link, link.map.source_axes()) {
                Ok(()) => {},
                Err(m) => {
                    proof { super::resolve::lemma_first_index(self.links@, lb, l as int); }
                    return Err(m);
                },
            }
            match link_axes_known(self, link, link.map.target_axes()) {
                Ok(()) => {},
                Err(m) => {
                    proof { super::resolve::lemma_first_index(self.links@, lb, l as int); }
                    return Err(m);
                },
            }
            if let Some(resource) = &link.resource {
                let mut found = false;
                let mut k: usize = 0;
                while k < self.resources.len()
                    invariant
                        k <= self.resources@.len(),
                        found ==> exists|j: int| 0 <= j < self.resources@.len() && #[trigger] self.resources@[j].name@ == resource@,
                        !found ==> forall|j: int| 0 <= j < k ==> self.resources@[j].name@ != resource@,
                    decreases self.resources.len() - k,
                {
                    if crate::text::str_eq(self.resources[k].name.as_str(), resource.as_str()) {
                        found = true;
                    }
                    k += 1;
                }
                if !found {
                    let mut m = crate::text::owned("network '");
                    crate::text::push_str(&mut m, self.name.as_str());
                    crate::text::push_str(&mut m, "' link '");
                    crate::text::push_str(&mut m, link.name.as_str());
                    crate::text::push_str(&mut m, "' uses unknown resource '");
                    crate::text::push_str(&mut m, resource.as_str());
                    crate::text::push_str(&mut m, "'");
                    proof {
                        super::resolve::lemma_first_index(self.links@, lb, l as int);
                        assert(m@ =~= "network '"@ + self.name@ + "' link '"@ + link.name@ + "' uses unknown resource '"@ + resource@ + "'"@);
                    }
                    return Err(m);
                }
            }
            l += 1;
        }
        proof { super::resolve::lemma_first_index(self.links@, lb, l as int); }
        Ok(())
    }
}

/// An edge lands inside the domain: one target coordinate per dimension, each below its
/// dimension's extent.
pub open spec fn lands_in(e: EdgeModel, dims: Seq<Axis>) -> bool {
    e.target.len() == dims.len() && forall|i: int| 0 <= i < dims.len() ==> #[trigger] e.target[i] < dims[i].extent
}

/// An edge follows `link`: it carries the link's name, and the link's map sends its
/// source to its target.
pub open spec fn follows(e: EdgeModel, link: NetworkLink) -> bool {
    &&& e.link == link.name@
    &&& apply_outcome(link.map@, signed(e.source)) == Ok::<Seq<int>, crate::math::affine::AffineErrorModel>(e.target.map_values(|v: u64| v as int))
}

proof fn lemma_edge_of_lands(net: NetworkTopology, link: NetworkLink, source: Seq<u64>)
    ensures
        edge_of(net, link, source) matches Some(e) ==> lands_in(e, net.dimensions@) && follows(e, link) && e.source == source,
{
    if let Ok(t) = apply_outcome(link.map@, signed(source)) {
        if in_dims(t, net.dimensions@) {
            let e = edge_of(net, link, source)->Some_0;
            assert forall|i: int| 0 <= i < net.dimensions@.len() implies #[trigger] e.target[i] < net.dimensions@[i].extent by {
                assert(0 <= t[i] < net.dimensions@[i].extent);
                assert(e.target[i] == t[i] as u64);
            }
            let back = e.target.map_values(|v: u64| v as int);
            assert(back =~= t) by {
                assert forall|i: int| 0 <= i < t.len() implies #[trigger] back[i] == t[i] by {
                    assert(0 <= t[i] < net.dimensions@[i].extent);
                }
            }
        }
    }
}

proof fn lemma_link_edges_land(net: NetworkTopology, link: NetworkLink, points: Seq<Seq<u64>>)
    ensures
        forall|k: int| 0 <= k < link_edges(net, link, points).len()
            ==> lands_in(#[trigger] link_edges(net, link, points)[k], net.dimensions@)
                && follows(link_edges(net, link, points)[k], link),
    decreases points.len(),
{
    if points.len() > 0 {
        lemma_link_edges_land(net, link, points.drop_last());
        lemma_edge_of_lands(net, link, points.last());
        let a = link_edges(net, link, points.drop_last());
        let b = match edge_of(net, link, points.last()) {
            Some(e) => seq![e],
            None => Seq::<EdgeModel>::empty(),
        };
        assert forall|k: int| 0 <= k < (a + b).len() implies lands_in(#[trigger] (a + b)[k], net.dimensions@)
            && follows((a + b)[k], link) by {
            if k < a.len() {
                assert((a + b)[k] == a[k]);
            } else {
                assert((a + b)[k] == b[k - a.len()]);
            }
        }
    }
}

/// Every edge of a network joins its source to a node of the domain: the target has one
/// coordinate per dimension, each below that dimension's extent, and it is where the map
/// of a link of the edge's name sends the source. A link whose map sends a node outside
/// the domain gives no edge from that node.
pub proof fn law_edges_in_domain(net: NetworkTopology, links: Seq<NetworkLink>)
    ensures
        forall|k: int| 0 <= k < all_edges(net, links).len()
            ==> lands_in(#[trigger] all_edges(net, links)[k], net.dimensions@)
                && exists|l: int| 0 <= l < links.len() && follows(all_edges(net, links)[k], #[trigger] links[l]),
    decreases links.len(),
{
    if links.len() > 0 {
        law_edges_in_domain(net, links.drop_last());
        lemma_link_edges_land(net, links.last(), grid(extents(net.dimensions@)));
        let a = all_edges(net, links.drop_last());
        let b = link_edges(net, links.last(), grid(extents(net.dimensions@)));
        assert forall|k: int| 0 <= k < (a + b).len() implies lands_in(#[trigger] (a + b)[k], net.dimensions@)
            && exists|l: int| 0 <= l < links.len() && follows((a + b)[k], #[trigger] links[l]) by {
            if k < a.len() {
                assert((a + b)[k] == a[k]);
                let l = choose|l: int| 0 <= l < links.drop_last().len() && follows(a[k], #[trigger] links.drop_last()[l]);
                assert(links[l] == links.drop_last()[l]);
            } else {
                assert((a + b)[k] == b[k - a.len()]);
                assert(links[links.len() - 1] == links.last());
            }
        }
    }
}

} // verus!
