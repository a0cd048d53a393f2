use vstd::prelude::*;

use crate::text::{chars_eq, chars_le_exec, chars_lt, chars_of, lemma_chars_le_total,
    lemma_insert_keeps_ascending, string_views, strictly_ascending, strings_contain};

verus! {

/// Why the capability router refused a request.
#[derive(Clone, Debug, PartialEq, Eq)]
pub enum CapabilityError {
    DuplicateProvider(String),
    EmptyCapabilities(String),
    UnknownCapability(String),
    NoHealthyProvider(String),
    MissingPermission { provider_id: String, permission: String },
    Provider(String),
}

/// The text of an error.
pub open spec fn spec_error_message(e: CapabilityError) -> Seq<char> {
    match e {
        CapabilityError::DuplicateProvider(id) => "provider already registered: "@ + id@,
        CapabilityError::EmptyCapabilities(id) => "provider must declare at least one capability: "@ + id@,
        CapabilityError::UnknownCapability(c) => "unknown capability: "@ + c@,
        CapabilityError::NoHealthyProvider(c) => "provider is not healthy for capability: "@ + c@,
        CapabilityError::MissingPermission { provider_id, permission } =>
            "missing permission "@ + permission@ + " for provider "@ + provider_id@,
        CapabilityError::Provider(m) => "provider invocation failed: "@ + m@,
    }
}

impl CapabilityError {
    /// The text of the error.
    pub fn message(&self) -> (s: String)
        ensures
            s@ == spec_error_message(*self),
    {
        match self {
            CapabilityError::DuplicateProvider(id) => {
                let mut s = "provider already registered: ".to_owned();
                s.append(id.as_str());
                s
            },
            CapabilityError::EmptyCapabilities(id) => {
                let mut s = "provider must declare at least one capability: ".to_owned();
                s.append(id.as_str());
                s
            },
            CapabilityError::UnknownCapability(c) => {
                let mut s = "unknown capability: ".to_owned();
                s.append(c.as_str());
                s
            },
            CapabilityError::NoHealthyProvider(c) => {
                let mut s = "provider is not healthy for capability: ".to_owned();
                s.append(c.as_str());
                s
            },
            CapabilityError::MissingPermission { provider_id, permission } => {
                let mut s = "missing permission ".to_owned();
                s.append(permission.as_str());
                s.append(" for provider ");
                s.append(provider_id.as_str());
                s
            },
            CapabilityError::Provider(m) => {
                let mut s = "provider invocation failed: ".to_owned();
                s.append(m.as_str());
                s
            },
        }
    }
}

/// A provider as the router sees it: its id, what it offers, what it needs granted,
/// and whether it is enabled and reports itself ready.
#[derive(Clone, Debug, PartialEq, Eq)]
pub struct ProviderRoute {
    pub provider_id: String,
    pub capabilities: Vec<String>,
    pub required_permissions: Vec<String>,
    pub enabled: bool,
    pub ready: bool,
}

/// What a provider is granted to read of a resident's event log: which events and privacy
/// categories, from which sequence number and until when, how many records, whether
/// payloads and references are included, when the grant expires and what it is for.
#[derive(Clone, Debug, PartialEq, Eq)]
pub struct EventLogReadGrant {
    pub provider_id: String,
    pub resident_id: String,
    pub event_types: Vec<String>,
    pub privacy_categories: Vec<String>,
    pub cursor_after_sequence: Option<i64>,
    pub until_timestamp: Option<String>,
    pub max_records: usize,
    pub allow_payloads: bool,
    pub allow_references: bool,
    pub expires_at: String,
    pub purpose: String,
}

/// The provider declares the capability.
pub open spec fn declares(r: ProviderRoute, capability: Seq<char>) -> bool {
    string_views(r.capabilities@).contains(capability)
}

/// The provider can serve the capability now: enabled, ready, and declaring it.
pub open spec fn healthy_for(r: ProviderRoute, capability: Seq<char>) -> bool {
    r.enabled && r.ready && declares(r, capability)
}

/// The ids of the providers, in order.
pub open spec fn route_ids(routes: Seq<ProviderRoute>) -> Seq<Seq<char>> {
    routes.map_values(|r: ProviderRoute| r.provider_id@)
}

/// The first provider in the list that can serve the capability.
pub open spec fn first_healthy(routes: Seq<ProviderRoute>, capability: Seq<char>) -> Option<ProviderRoute>
    decreases routes.len(),
{
    if routes.len() == 0 {
        None
    } else if healthy_for(routes[0], capability) {
        Some(routes[0])
    } else {
        first_healthy(routes.drop_first(), capability)
    }
}

/// Some provider in the list declares the capability.
pub open spec fn any_declares(routes: Seq<ProviderRoute>, capability: Seq<char>) -> bool {
    exists|i: int| 0 <= i < routes.len() && #[trigger] declares(routes[i], capability)
}

/// The provider of the id, if the list has one.
pub open spec fn route_by_id(routes: Seq<ProviderRoute>, id: Seq<char>) -> Option<ProviderRoute>
    decreases routes.len(),
{
    if routes.len() == 0 {
        None
    } else if routes[0].provider_id@ == id {
        Some(routes[0])
    } else {
        route_by_id(routes.drop_first(), id)
    }
}

/// The default provider chosen for a capability: the last setting for it wins.
pub open spec fn default_for(defaults: Seq<(Seq<char>, Seq<char>)>, capability: Seq<char>) -> Option<Seq<char>>
    decreases defaults.len(),
{
    if defaults.len() == 0 {
        None
    } else if defaults.last().0 == capability {
        Some(defaults.last().1)
    } else {
        default_for(defaults.drop_last(), capability)
    }
}

/// How a capability is served.
pub enum Selection {
    /// By the provider of this id.
    Chosen(Seq<char>),
    /// By no provider now, though some provider declares it.
    Unhealthy,
    /// By no provider: none declares it.
    Unknown,
}

/// The default provider of a capability, where one is set, registered, and can serve it.
pub open spec fn default_choice(routes: Seq<ProviderRoute>, defaults: Seq<(Seq<char>, Seq<char>)>,
    capability: Seq<char>) -> Option<Seq<char>> {
    match default_for(defaults, capability) {
        Some(id) => match route_by_id(routes, id) {
            Some(r) => if healthy_for(r, capability) { Some(id) } else { None },
            None => None,
        },
        None => None,
    }
}

/// The provider that serves a capability: the default provider where one is set and can
/// serve it, otherwise the first provider in id order that can.
pub open spec fn spec_select(routes: Seq<ProviderRoute>, defaults: Seq<(Seq<char>, Seq<char>)>,
    capability: Seq<char>) -> Selection {
    match default_choice(routes, defaults, capability) {
        Some(id) => Selection::Chosen(id),
        None => match first_healthy(routes, capability) {
            Some(r) => Selection::Chosen(r.provider_id@),
            None => if any_declares(routes, capability) {
                Selection::Unhealthy
            } else {
                Selection::Unknown
            },
        },
    }
}

/// The first of the permissions that is not granted.
pub open spec fn first_missing(permissions: Seq<Seq<char>>, granted: Set<Seq<char>>) -> Option<Seq<char>>
    decreases permissions.len(),
{
    if permissions.len() == 0 {
        None
    } else if !granted.contains(permissions[0]) {
        Some(permissions[0])
    } else {
        first_missing(permissions.drop_first(), granted)
    }
}

/// Pairs of strings as pairs of texts.
pub open spec fn pair_views(v: Seq<(String, String)>) -> Seq<(Seq<char>, Seq<char>)> {
    v.map_values(|p: (String, String)| (p.0@, p.1@))
}

/// The permissions granted to a provider.
pub open spec fn granted_to(grants: Seq<(Seq<char>, Seq<char>)>, provider_id: Seq<char>) -> Set<Seq<char>> {
    Set::new(|p: Seq<char>| grants.contains((provider_id, p)))
}

/// Replacing a capability's last setting changes what is chosen for that capability only.
proof fn lemma_default_after_update(d: Seq<(Seq<char>, Seq<char>)>, i: int, c: Seq<char>, v: Seq<char>)
    requires
        0 <= i < d.len(),
        d[i].0 == c,
        forall|k: int| i < k < d.len() ==> #[trigger] d[k].0 != c,
    ensures
        default_for(d.update(i, (c, v)), c) == Some(v),
        forall|x: Seq<char>| x != c ==> #[trigger] default_for(d.update(i, (c, v)), x) == default_for(d, x),
    decreases d.len(),
{
    let u = d.update(i, (c, v));
    if i < d.len() - 1 {
        assert(u.drop_last() =~= d.drop_last().update(i, (c, v)));
        lemma_default_after_update(d.drop_last(), i, c, v);
        assert(u.last() == d.last());
        assert(d[d.len() - 1].0 != c);
    } else {
        assert(u.drop_last() =~= d.drop_last());
    }
    assert forall|x: Seq<char>| x != c implies #[trigger] default_for(u, x) == default_for(d, x) by {
        if i < d.len() - 1 {
            assert(u.last() == d.last());
            assert(default_for(d.drop_last().update(i, (c, v)), x) == default_for(d.drop_last(), x));
            assert(default_for(u.drop_last(), x) == default_for(d.drop_last(), x));
        } else {
            assert(u.last() == (c, v));
            assert(d.last() == d[i]);
            assert(default_for(u.drop_last(), x) == default_for(d.drop_last(), x));
        }
    }
}

/// The last setting for a capability is the one that counts.
proof fn lemma_default_at_last_match(d: Seq<(Seq<char>, Seq<char>)>, i: int, c: Seq<char>)
    requires
        0 <= i < d.len(),
        d[i].0 == c,
        forall|k: int| i < k < d.len() ==> #[trigger] d[k].0 != c,
    ensures
        default_for(d, c) == Some(d[i].1),
    decreases d.len(),
{
    if i < d.len() - 1 {
        lemma_default_at_last_match(d.drop_last(), i, c);
    }
}

/// Without a setting for a capability there is no default for it.
proof fn lemma_no_default(d: Seq<(Seq<char>, Seq<char>)>, c: Seq<char>)
    requires
        forall|k: int| 0 <= k < d.len() ==> #[trigger] d[k].0 != c,
    ensures
        default_for(d, c) is None,
    decreases d.len(),
{
    if d.len() > 0 {
        lemma_no_default(d.drop_last(), c);
    }
}

/// The provider found for an id has that id.
proof fn lemma_route_by_id_has_id(routes: Seq<ProviderRoute>, id: Seq<char>)
    ensures
        route_by_id(routes, id) matches Some(r) ==> r.provider_id@ == id,
    decreases routes.len(),
{
    if routes.len() > 0 {
        lemma_route_by_id_has_id(routes.drop_first(), id);
    }
}

/// Chooses providers for capabilities and checks that their permissions were granted.
pub struct CapabilityRouter {
    routes: Vec<ProviderRoute>,
    defaults: Vec<(String, String)>,
    grants: Vec<(String, String)>,
}

impl CapabilityRouter {
    /// The registered providers, in id order.
    pub closed spec fn spec_routes(&self) -> Seq<ProviderRoute> {
        self.routes@
    }

    /// The default-provider settings, in the order they were made.
    pub closed spec fn spec_defaults(&self) -> Seq<(Seq<char>, Seq<char>)> {
        pair_views(self.defaults@)
    }

    /// The granted permissions, as (provider, permission) pairs.
    pub closed spec fn spec_grants(&self) -> Seq<(Seq<char>, Seq<char>)> {
        pair_views(self.grants@)
    }

    /// The router's invariant: providers in strictly increasing id order.
    pub closed spec fn wf(&self) -> bool {
        strictly_ascending(route_ids(self.routes@))
    }

    /// A router's providers stand in strictly increasing id order, so where several can
    /// serve a capability the first of them in the routes has the smallest id.
    pub proof fn lemma_routes_in_id_order(&self)
        requires
            self.wf(),
        ensures
            strictly_ascending(route_ids(self.spec_routes())),
    {
    }

    /// A router with no providers, defaults or grants.
    pub fn new() -> (r: CapabilityRouter)
        ensures
            r.wf(),
            r.spec_routes().len() == 0,
            r.spec_defaults().len() == 0,
            r.spec_grants().len() == 0,
    {
        let r = CapabilityRouter { routes: Vec::new(), defaults: Vec::new(), grants: Vec::new() };
        assert(route_ids(r.routes@) =~= Seq::<Seq<char>>::empty());
        r
    }

    /// Adds a provider. A provider that declares no capability, or whose id is taken, is
    /// refused and the router is left as it was.
    pub fn register(&mut self, route: ProviderRoute) -> (res: Result<(), CapabilityError>)
        requires
            old(self).wf(),
        ensures
            final(self).wf(),
            final(self).spec_defaults() == old(self).spec_defaults(),
            final(self).spec_grants() == old(self).spec_grants(),
            route.capabilities@.len() == 0 ==> (res matches Err(CapabilityError::EmptyCapabilities(id))
                && id@ == route.provider_id@ && final(self).spec_routes() == old(self).spec_routes()),
            route.capabilities@.len() > 0 && route_ids(old(self).spec_routes()).contains(route.provider_id@)
                ==> (res matches Err(CapabilityError::DuplicateProvider(id)) && id@ == route.provider_id@
                && final(self).spec_routes() == old(self).spec_routes()),
            route.capabilities@.len() > 0 && !route_ids(old(self).spec_routes()).contains(route.provider_id@)
                ==> res is Ok && route_ids(final(self).spec_routes()).to_set() == route_ids(
                old(self).spec_routes()).to_set().insert(route.provider_id@)
                && final(self).spec_routes().to_set() == old(self).spec_routes().to_set().insert(route),
    {
        if route.capabilities.len() == 0 {
            return Err(CapabilityError::EmptyCapabilities(route.provider_id));
        }
        let ghost old_routes = self.routes@;
        let ghost ids = route_ids(old_routes);
        let key = chars_of(route.provider_id.as_str());
        let mut i: usize = 0;
        let mut found = false;
        while i < self.routes.len()
            invariant_except_break
                !found,
            invariant
                self.routes@ == old_routes,
                ids == route_ids(old_routes),
                ids.len() == old_routes.len(),
                strictly_ascending(ids),
                key@ == route.provider_id@,
                i <= old_routes.len(),
                forall|k: int| 0 <= k < i ==> #[trigger] chars_lt(ids[k], key@),
            ensures
                self.routes@ == old_routes,
                i <= old_routes.len(),
                forall|k: int| 0 <= k < i ==> #[trigger] chars_lt(ids[k], key@),
                found ==> i < old_routes.len() && ids[i as int] == key@,
                !found ==> i == old_routes.len() || chars_lt(key@, ids[i as int]),
            decreases old_routes.len() - i,
        {
            let other = chars_of(self.routes[i].provider_id.as_str());
            proof {
                assert(ids[i as int] == old_routes[i as int].provider_id@);
            }
            if chars_eq(other.as_slice(), key.as_slice()) {
                found = true;
                break;
            }
            if chars_le_exec(key.as_slice(), other.as_slice()) {
                break;
            }
            proof {
                lemma_chars_le_total(key@, other@);
            }
            i += 1;
        }
        if found {
            proof {
                assert(ids.contains(route.provider_id@));
            }
            return Err(CapabilityError::DuplicateProvider(route.provider_id));
        }
        let ghost pos = i as int;
        proof {
            lemma_insert_keeps_ascending(ids, pos, route.provider_id@);
            assert forall|k: int| 0 <= k < ids.len() implies ids[k] != route.provider_id@ by {
                if k < pos {
                    assert(chars_lt(ids[k], key@));
                } else {
                    if k > pos {
                        assert(chars_lt(ids[pos], ids[k]));
                        crate::text::lemma_chars_le_trans(key@, ids[pos], ids[k]);
                        if ids[k] == key@ {
                            crate::text::lemma_chars_le_antisym(ids[pos], ids[k]);
                        }
                    }
                }
            }
        }
        self.routes.insert(i, route);
        proof {
            let new_routes = self.routes@;
            assert(route_ids(new_routes) =~= ids.insert(pos, key@));
            assert(route_ids(new_routes).to_set() =~= ids.to_set().insert(key@)) by {
                let nv = route_ids(new_routes);
                assert forall|x: Seq<char>| nv.to_set().contains(x) implies ids.to_set().insert(key@).contains(x) by {
                    let k = choose|k: int| 0 <= k < nv.len() && nv[k] == x;
                    if k < pos {
                        assert(ids[k] == x);
                    } else if k > pos {
                        assert(ids[k - 1] == x);
                    }
                }
                assert forall|x: Seq<char>| ids.to_set().insert(key@).contains(x) implies nv.to_set().contains(x) by {
                    if x == key@ {
                        assert(nv[pos] == x);
                    } else {
                        let k = choose|k: int| 0 <= k < ids.len() && ids[k] == x;
                        if k < pos {
                            assert(nv[k] == x);
                        } else {
                            assert(nv[k + 1] == x);
                        }
                    }
                }
            }
            assert(new_routes.to_set() =~= old_routes.to_set().insert(new_routes[pos])) by {
                assert forall|x: ProviderRoute| new_routes.to_set().contains(x) implies old_routes.to_set().insert(new_routes[pos]).contains(x) by {
                    let k = choose|k: int| 0 <= k < new_routes.len() && new_routes[k] == x;
                    if k < pos {
                        assert(old_routes[k] == x);
                    } else if k > pos {
                        assert(old_routes[k - 1] == x);
                    }
                }
                assert forall|x: ProviderRoute| old_routes.to_set().insert(new_routes[pos]).contains(x) implies new_routes.to_set().contains(x) by {
                    if x == new_routes[pos] {
                        assert(new_routes[pos] == x);
                    } else {
                        let k = choose|k: int| 0 <= k < old_routes.len() && old_routes[k] == x;
                        if k < pos {
                            assert(new_routes[k] == x);
                        } else {
                            assert(new_routes[k + 1] == x);
                        }
                    }
                }
            }
        }
        Ok(())
    }

    /// The position of the last default setting for the capability.
    fn default_position(&self, capability: &str) -> (r: Option<usize>)
        ensures
            match r {
                Some(i) => i < self.defaults@.len() && self.spec_defaults()[i as int].0 == capability@
                    && forall|k: int| i < k < self.defaults@.len() ==> #[trigger] self.spec_defaults()[k].0
                    != capability@,
                None => forall|k: int| 0 <= k < self.defaults@.len() ==> #[trigger] self.spec_defaults()[k].0
                    != capability@,
            },
    {
        let key = chars_of(capability);
        let mut i: usize = self.defaults.len();
        while i > 0
            invariant
                key@ == capability@,
                i <= self.defaults@.len(),
                forall|k: int| i <= k < self.defaults@.len() ==> #[trigger] self.spec_defaults()[k].0
                    != capability@,
            decreases i,
        {
            let j = i - 1;
            let c = chars_of(self.defaults[j].0.as_str());
            proof {
                assert(self.spec_defaults()[j as int].0 == self.defaults@[j as int].0@);
            }
            if chars_eq(c.as_slice(), key.as_slice()) {
                return Some(j);
            }
            i = j;
        }
        None
    }

    /// The position of the provider of the id.
    fn route_position(&self, provider_id: &str) -> (r: Option<usize>)
        ensures
            match r {
                Some(i) => i < self.routes@.len() && route_by_id(self.routes@, provider_id@) == Some(
                    self.routes@[i as int]),
                None => route_by_id(self.routes@, provider_id@) is None,
            },
    {
        let key = chars_of(provider_id);
        let mut i: usize = 0;
        proof {
            assert(self.routes@.skip(0) =~= self.routes@);
        }
        while i < self.routes.len()
            invariant
                key@ == provider_id@,
                i <= self.routes@.len(),
                route_by_id(self.routes@, provider_id@) == route_by_id(self.routes@.skip(i as int), provider_id@),
            decreases self.routes@.len() - i,
        {
            let other = chars_of(self.routes[i].provider_id.as_str());
            proof {
                assert(self.routes@.skip(i as int)[0] == self.routes@[i as int]);
                assert(self.routes@.skip(i as int).drop_first() =~= self.routes@.skip(i + 1));
            }
            if chars_eq(other.as_slice(), key.as_slice()) {
                return Some(i);
            }
            i += 1;
        }
        None
    }

    /// Whether the provider can serve the capability now.
    fn is_healthy_for(route: &ProviderRoute, capability: &str) -> (b: bool)
        ensures
            b == healthy_for(*route, capability@),
    {
        route.enabled && route.ready && strings_contain(&route.capabilities, capability)
    }

    /// Makes a provider the default for a capability, replacing an earlier choice.
    pub fn set_default_provider(&mut self, capability: &str, provider_id: &str)
        ensures
            final(self).spec_routes() == old(self).spec_routes(),
            final(self).spec_grants() == old(self).spec_grants(),
            final(self).wf() == old(self).wf(),
            default_for(final(self).spec_defaults(), capability@) == Some(provider_id@),
            forall|c: Seq<char>| c != capability@ ==> #[trigger] default_for(final(self).spec_defaults(), c)
                == default_for(old(self).spec_defaults(), c),
    {
        let ghost before = self.spec_defaults();
        match self.default_position(capability) {
            Some(i) => {
                self.defaults.set(i, (capability.to_owned(), provider_id.to_owned()));
                proof {
                    let after = self.spec_defaults();
                    assert(after =~= before.update(i as int, (capability@, provider_id@)));
                    lemma_default_after_update(before, i as int, capability@, provider_id@);
                }
            },
            None => {
                self.defaults.push((capability.to_owned(), provider_id.to_owned()));
                proof {
                    let after = self.spec_defaults();
                    assert(after =~= before.push((capability@, provider_id@)));
                    assert(after.drop_last() =~= before);
                }
            },
        }
    }

    /// Grants a permission to a provider.
    pub fn grant_permission(&mut self, provider_id: &str, permission: &str)
        ensures
            final(self).spec_routes() == old(self).spec_routes(),
            final(self).spec_defaults() == old(self).spec_defaults(),
            final(self).wf() == old(self).wf(),
            final(self).spec_grants().to_set() == old(self).spec_grants().to_set().insert(
                (provider_id@, permission@)),
    {
        let ghost before = self.spec_grants();
        let p = chars_of(provider_id);
        let q = chars_of(permission);
        let mut i: usize = 0;
        while i < self.grants.len()
            invariant
                p@ == provider_id@,
                q@ == permission@,
                before == self.spec_grants(),
                i <= self.grants@.len(),
                forall|k: int| 0 <= k < i ==> #[trigger] before[k] != (provider_id@, permission@),
            decreases self.grants@.len() - i,
        {
            let a = chars_of(self.grants[i].0.as_str());
            let b = chars_of(self.grants[i].1.as_str());
            proof {
                assert(before[i as int] == (self.grants@[i as int].0@, self.grants@[i as int].1@));
            }
            if chars_eq(a.as_slice(), p.as_slice()) && chars_eq(b.as_slice(), q.as_slice()) {
                proof {
                    assert(before.to_set().insert((provider_id@, permission@)) =~= before.to_set());
                }
                return;
            }
            i += 1;
        }
        self.grants.push((provider_id.to_owned(), permission.to_owned()));
        proof {
            let after = self.spec_grants();
            assert(after =~= before.push((provider_id@, permission@)));
            assert(after.to_set() =~= before.to_set().insert((provider_id@, permission@))) by {
                assert forall|x| after.to_set().contains(x) implies before.to_set().insert(
                    (provider_id@, permission@)).contains(x) by {
                    let k = choose|k: int| 0 <= k < after.len() && after[k] == x;
                    if k < before.len() {
                        assert(before[k] == x);
                    }
                }
                assert forall|x| before.to_set().insert((provider_id@, permission@)).contains(x)
                    implies after.to_set().contains(x) by {
                    if x == (provider_id@, permission@) {
                        assert(after[before.len() as int] == x);
                    } else {
                        let k = choose|k: int| 0 <= k < before.len() && before[k] == x;
                        assert(after[k] == x);
                    }
                }
            }
        }
    }

    /// Whether some provider can serve the capability now.
    pub fn has_healthy_provider(&self, capability: &str) -> (b: bool)
        ensures
            b == exists|i: int| 0 <= i < self.spec_routes().len() && #[trigger] healthy_for(
                self.spec_routes()[i], capability@),
    {
        let mut i: usize = 0;
        while i < self.routes.len()
            invariant
                i <= self.routes@.len(),
                forall|k: int| 0 <= k < i ==> !#[trigger] healthy_for(self.routes@[k], capability@),
            decreases self.routes@.len() - i,
        {
            if Self::is_healthy_for(&self.routes[i], capability) {
                proof {
                    assert(healthy_for(self.spec_routes()[i as int], capability@));
                }
                return true;
            }
            i += 1;
        }
        false
    }

    /// The provider that serves the capability, or why none does.
    pub fn select_provider(&self, capability: &str) -> (r: Result<String, CapabilityError>)
        ensures
            match spec_select(self.spec_routes(), self.spec_defaults(), capability@) {
                Selection::Chosen(id) => r matches Ok(s) && s@ == id,
                Selection::Unhealthy => r matches Err(CapabilityError::NoHealthyProvider(c))
                    && c@ == capability@,
                Selection::Unknown => r matches Err(CapabilityError::UnknownCapability(c))
                    && c@ == capability@,
            },
    {
        let ghost routes = self.routes@;
        match self.default_position(capability) {
            Some(d) => {
                proof {
                    lemma_default_at_last_match(self.spec_defaults(), d as int, capability@);
                }
                let provider_id = &self.defaults[d].1;
                proof {
                    assert(self.spec_defaults()[d as int].1 == provider_id@);
                }
                match self.route_position(provider_id.as_str()) {
                    Some(k) => {
                        if Self::is_healthy_for(&self.routes[k], capability) {
                            return Ok(provider_id.clone());
                        }
                    },
                    None => {},
                }
            },
            None => {
                proof {
                    lemma_no_default(self.spec_defaults(), capability@);
                }
            },
        }
        let mut found_capability = false;
        let mut i: usize = 0;
        proof {
            assert(routes.skip(0) =~= routes);
        }
        while i < self.routes.len()
            invariant
                routes == self.routes@,
                default_choice(routes, self.spec_defaults(), capability@) is None,
                i <= routes.len(),
                first_healthy(routes, capability@) == first_healthy(routes.skip(i as int), capability@),
                found_capability == exists|k: int| 0 <= k < i && #[trigger] declares(routes[k], capability@),
            decreases routes.len() - i,
        {
            let route = &self.routes[i];
            proof {
                assert(routes.skip(i as int)[0] == routes[i as int]);
                assert(routes.skip(i as int).drop_first() =~= routes.skip(i + 1));
            }
            if strings_contain(&route.capabilities, capability) {
                proof {
                    assert(declares(routes[i as int], capability@));
                }
                found_capability = true;
                if route.enabled && route.ready {
                    return Ok(route.provider_id.clone());
                }
            } else {
                proof {
                    assert(!declares(routes[i as int], capability@));
                    assert forall|k: int| 0 <= k < i + 1 && #[trigger] declares(routes[k], capability@)
                        implies k < i by {}
                }
            }
            i += 1;
        }
        proof {
            assert(routes.skip(i as int).len() == 0);
        }
        if found_capability {
            Err(CapabilityError::NoHealthyProvider(capability.to_owned()))
        } else {
            Err(CapabilityError::UnknownCapability(capability.to_owned()))
        }
    }

    /// Whether the permission was granted to the provider.
    fn is_granted(&self, provider_id: &str, permission: &str) -> (b: bool)
        ensures
            b == granted_to(self.spec_grants(), provider_id@).contains(permission@),
    {
        let p = chars_of(provider_id);
        let q = chars_of(permission);
        let mut i: usize = 0;
        while i < self.grants.len()
            invariant
                p@ == provider_id@,
                q@ == permission@,
                i <= self.grants@.len(),
                forall|k: int| 0 <= k < i ==> #[trigger] self.spec_grants()[k] != (provider_id@, permission@),
            decreases self.grants@.len() - i,
        {
            let a = chars_of(self.grants[i].0.as_str());
            let b = chars_of(self.grants[i].1.as_str());
            proof {
                assert(self.spec_grants()[i as int] == (self.grants@[i as int].0@, self.grants@[i as int].1@));
            }
            if chars_eq(a.as_slice(), p.as_slice()) && chars_eq(b.as_slice(), q.as_slice()) {
                proof {
                    assert(self.spec_grants().contains((provider_id@, permission@)));
                }
                return true;
            }
            i += 1;
        }
        false
    }

    /// Checks that every permission the provider needs was granted to it; the first one
    /// missing, in the order the provider lists them, is reported.
    pub fn ensure_permissions(&self, route: &ProviderRoute) -> (r: Result<(), CapabilityError>)
        ensures
            match first_missing(string_views(route.required_permissions@), granted_to(
                self.spec_grants(), route.provider_id@)) {
                None => r is Ok,
                Some(p) => r matches Err(CapabilityError::MissingPermission { provider_id, permission })
                    && provider_id@ == route.provider_id@ && permission@ == p,
            },
    {
        let ghost perms = string_views(route.required_permissions@);
        let ghost granted = granted_to(self.spec_grants(), route.provider_id@);
        let mut i: usize = 0;
        proof {
            assert(perms.skip(0) =~= perms);
        }
        while i < route.required_permissions.len()
            invariant
                perms == string_views(route.required_permissions@),
                granted == granted_to(self.spec_grants(), route.provider_id@),
                i <= perms.len(),
                perms.len() == route.required_permissions@.len(),
                first_missing(perms, granted) == first_missing(perms.skip(i as int), granted),
            decreases perms.len() - i,
        {
            let permission = &route.required_permissions[i];
            proof {
                assert(perms.skip(i as int)[0] == permission@);
                assert(perms.skip(i as int).drop_first() =~= perms.skip(i + 1));
            }
            if !self.is_granted(route.provider_id.as_str(), permission.as_str()) {
                return Err(CapabilityError::MissingPermission {
                    provider_id: route.provider_id.clone(),
                    permission: permission.clone(),
                });
            }
            i += 1;
        }
        proof {
            assert(perms.skip(i as int).len() == 0);
        }
        Ok(())
    }

    /// The provider that will serve an invocation of the capability: the selected provider,
    /// once its permissions are found granted.
    pub fn route(&self, capability: &str) -> (r: Result<String, CapabilityError>)
        ensures
            match spec_select(self.spec_routes(), self.spec_defaults(), capability@) {
                Selection::Chosen(id) => match route_by_id(self.spec_routes(), id) {
                    Some(chosen) => match first_missing(string_views(chosen.required_permissions@),
                        granted_to(self.spec_grants(), id)) {
                        None => r matches Ok(s) && s@ == id,
                        Some(p) => r matches Err(CapabilityError::MissingPermission { provider_id, permission })
                            && provider_id@ == id && permission@ == p,
                    },
                    None => r matches Err(CapabilityError::UnknownCapability(c)) && c@ == capability@,
                },
                Selection::Unhealthy => r matches Err(CapabilityError::NoHealthyProvider(c))
                    && c@ == capability@,
                Selection::Unknown => r matches Err(CapabilityError::UnknownCapability(c))
                    && c@ == capability@,
            },
    {
        let provider_id = match self.select_provider(capability) {
            Ok(id) => id,
            Err(e) => {
                return Err(e);
            },
        };
        match self.route_position(provider_id.as_str()) {
            Some(k) => {
                proof {
                    lemma_route_by_id_has_id(self.routes@, provider_id@);
                }
                match self.ensure_permissions(&self.routes[k]) {
                    Ok(()) => Ok(provider_id),
                    Err(e) => Err(e),
                }
            },
            None => Err(CapabilityError::UnknownCapability(capability.to_owned())),
        }
    }
}

} // verus!
verus! {

/// A provider found by id is one of the listed providers.
proof fn lemma_route_by_id_listed(routes: Seq<ProviderRoute>, id: Seq<char>)
    ensures
        route_by_id(routes, id) matches Some(r) ==> exists|i: int| 0 <= i < routes.len() && routes[i] == r,
    decreases routes.len(),
{
    if routes.len() > 0 && routes[0].provider_id@ != id {
        lemma_route_by_id_listed(routes.drop_first(), id);
        if let Some(r) = route_by_id(routes, id) {
            let i = choose|i: int| 0 <= i < routes.drop_first().len() && routes.drop_first()[i] == r;
            assert(routes[i + 1] == r);
        }
    }
}

/// The first provider that can serve a capability is a listed one that can; there is none
/// exactly when no listed provider can.
proof fn lemma_first_healthy(routes: Seq<ProviderRoute>, capability: Seq<char>)
    ensures
        first_healthy(routes, capability) matches Some(r) ==> exists|i: int| 0 <= i < routes.len()
            && routes[i] == r && healthy_for(r, capability),
        first_healthy(routes, capability) is None <==> forall|i: int| 0 <= i < routes.len()
            ==> !#[trigger] healthy_for(routes[i], capability),
    decreases routes.len(),
{
    if routes.len() > 0 {
        let rest = routes.drop_first();
        lemma_first_healthy(rest, capability);
        if !healthy_for(routes[0], capability) {
            if let Some(r) = first_healthy(routes, capability) {
                let i = choose|i: int| 0 <= i < rest.len() && rest[i] == r && healthy_for(r, capability);
                assert(routes[i + 1] == r);
            }
            if first_healthy(routes, capability) is None {
                assert forall|i: int| 0 <= i < routes.len() implies !#[trigger] healthy_for(routes[i], capability) by {
                    if i > 0 {
                        assert(routes[i] == rest[i - 1]);
                    }
                }
            } else {
                let r = first_healthy(routes, capability)->Some_0;
                let i = choose|i: int| 0 <= i < rest.len() && rest[i] == r && healthy_for(r, capability);
                assert(healthy_for(routes[i + 1], capability));
            }
        }
    }
}

/// Whatever provider the router selects can serve the capability: it is registered,
/// enabled, ready, and declares the capability.
pub proof fn lemma_selected_provider_serves(routes: Seq<ProviderRoute>,
    defaults: Seq<(Seq<char>, Seq<char>)>, capability: Seq<char>)
    ensures
        spec_select(routes, defaults, capability) matches Selection::Chosen(id) ==> exists|i: int|
            0 <= i < routes.len() && routes[i].provider_id@ == id && healthy_for(routes[i], capability),
{
    lemma_first_healthy(routes, capability);
    if let Some(id) = default_for(defaults, capability) {
        lemma_route_by_id_listed(routes, id);
        lemma_route_by_id_has_id(routes, id);
    }
}

/// A capability is reported unknown exactly when no registered provider declares it.
pub proof fn lemma_unknown_iff_undeclared(routes: Seq<ProviderRoute>,
    defaults: Seq<(Seq<char>, Seq<char>)>, capability: Seq<char>)
    ensures
        spec_select(routes, defaults, capability) is Unknown <==> !any_declares(routes, capability),
{
    lemma_first_healthy(routes, capability);
    if let Some(id) = default_for(defaults, capability) {
        lemma_route_by_id_listed(routes, id);
    }
    if let Selection::Chosen(id) = spec_select(routes, defaults, capability) {
        lemma_selected_provider_serves(routes, defaults, capability);
        let i = choose|i: int| 0 <= i < routes.len() && routes[i].provider_id@ == id && healthy_for(routes[i], capability);
        assert(declares(routes[i], capability));
    }
}

/// A permission counts as granted to a provider exactly when it was granted to that very
/// provider, so a provider passes its permission check exactly when each permission it
/// needs was granted to it; grants to other providers never change its check.
pub proof fn lemma_grants_are_per_provider(
    grants: Seq<(Seq<char>, Seq<char>)>,
    provider: Seq<char>,
    permissions: Seq<Seq<char>>,
    other: Seq<char>,
    permission: Seq<char>,
)
    requires
        other != provider,
    ensures
        forall|x: Seq<char>| #[trigger] granted_to(grants, provider).contains(x) <==> grants.contains((provider, x)),
        first_missing(permissions, granted_to(grants, provider)) is None <==> forall|i: int|
            0 <= i < permissions.len() ==> grants.contains((provider, #[trigger] permissions[i])),
        first_missing(permissions, granted_to(grants.push((other, permission)), provider)) == first_missing(
            permissions,
            granted_to(grants, provider),
        ),
{
    lemma_permissions_pass_iff_all_granted(permissions, granted_to(grants, provider));
    let g2 = grants.push((other, permission));
    assert forall|x: Seq<char>| #[trigger] granted_to(g2, provider).contains(x) == granted_to(grants, provider).contains(x) by {
        if g2.contains((provider, x)) {
            let k = choose|k: int| 0 <= k < g2.len() && g2[k] == (provider, x);
            if k < grants.len() {
                assert(grants[k] == (provider, x));
            }
        }
        if grants.contains((provider, x)) {
            let k = choose|k: int| 0 <= k < grants.len() && grants[k] == (provider, x);
            assert(g2[k] == (provider, x));
        }
    }
    assert(granted_to(g2, provider) =~= granted_to(grants, provider));
}

/// A provider passes the permission check exactly when every permission it needs was granted.
pub proof fn lemma_permissions_pass_iff_all_granted(permissions: Seq<Seq<char>>, granted: Set<Seq<char>>)
    ensures
        first_missing(permissions, granted) is None <==> forall|i: int| 0 <= i < permissions.len()
            ==> granted.contains(#[trigger] permissions[i]),
    decreases permissions.len(),
{
    if permissions.len() > 0 {
        let rest = permissions.drop_first();
        lemma_permissions_pass_iff_all_granted(rest, granted);
        if granted.contains(permissions[0]) && first_missing(rest, granted) is None {
            assert forall|i: int| 0 <= i < permissions.len() implies granted.contains(#[trigger] permissions[i]) by {
                if i > 0 {
                    assert(permissions[i] == rest[i - 1]);
                }
            }
        }
        if first_missing(rest, granted) is Some && granted.contains(permissions[0]) {
            let i = choose|i: int| 0 <= i < rest.len() && !granted.contains(#[trigger] rest[i]);
            assert(permissions[i + 1] == rest[i]);
        }
    }
}

} // verus!
verus! {

/// A speech provider that makes no sound: it answers with a reference and a duration
/// worked out from the text.
#[derive(Clone, Copy, Debug, Default)]
pub struct StubSpeechSynthesisProvider;

impl StubSpeechSynthesisProvider {
    /// The stub's registration: `stub-speech`, offering `speech.synthesis`, needing no
    /// permission, enabled and ready.
    pub fn registration(&self) -> (r: ProviderRoute)
        ensures
            r.provider_id@ == "stub-speech"@,
            string_views(r.capabilities@) == seq!["speech.synthesis"@],
            r.required_permissions@.len() == 0,
            r.enabled,
            r.ready,
    {
        let mut capabilities: Vec<String> = Vec::new();
        capabilities.push("speech.synthesis".to_owned());
        proof {
            assert(string_views(capabilities@) =~= seq!["speech.synthesis"@]);
        }
        ProviderRoute {
            provider_id: "stub-speech".to_owned(),
            capabilities,
            required_permissions: Vec::new(),
            enabled: true,
            ready: true,
        }
    }

    /// How long the stub says speaking the text takes: 90 ms per character, at least one.
    pub fn duration_ms(text: &str) -> (ms: u64)
        requires
            text@.len() * 90 <= u64::MAX,
        ensures
            ms == (if text@.len() == 0 { 1 } else { text@.len() }) * 90,
    {
        let n = chars_of(text).len() as u64;
        let count = if n == 0 { 1 } else { n };
        count * 90
    }

    /// The reference of the stub's speech for a display command (`display-command` where
    /// the invocation names none).
    pub fn speech_ref(display_command_id: Option<&str>) -> (r: String)
        ensures
            r@ == "stub-speech://"@ + match display_command_id {
                Some(id) => id@,
                None => "display-command"@,
            },
    {
        let mut r = "stub-speech://".to_owned();
        match display_command_id {
            Some(id) => r.append(id),
            None => r.append("display-command"),
        }
        r
    }
}

} // verus!
