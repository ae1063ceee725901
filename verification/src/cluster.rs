//! What the router needs to know of a cluster member.
use vstd::prelude::*;
use vstd::string::*;

use crate::assoc::{lemma_map_has_row, AssocMap};
use crate::name_set::{names_has, NameSet};
use crate::text::str_eq;

verus! {

/// The part that a member plays.
#[derive(Clone, Copy, Debug, PartialEq, Eq, Structural)]
pub enum NodeRole {
    Client,
    Other,
}

/// A member of the cluster. Its start time tells its generations apart.
pub struct ClusterMember {
    pub id: String,
    pub node_start_time: i64,
    pub metadata: AssocMap<String, String>,
    pub sub_cluster: Option<String>,
    pub role: NodeRole,
    /// The member keeps values on an SSD.
    pub has_kv_ssd_storage: bool,
}

/// A member of the cluster, as mathematical values.
#[verifier::ext_equal]
pub struct MemberModel {
    pub id: Seq<char>,
    pub node_start_time: i64,
    pub metadata: Map<Seq<char>, Seq<char>>,
    pub sub_cluster: Option<Seq<char>>,
    pub role: NodeRole,
    pub has_kv_ssd_storage: bool,
}

/// The texts of a table.
pub open spec fn texts(m: Map<Seq<char>, String>) -> Map<Seq<char>, Seq<char>> {
    Map::new(|k: Seq<char>| m.contains_key(k), |k: Seq<char>| m[k]@)
}

impl View for ClusterMember {
    type V = MemberModel;

    open spec fn view(&self) -> MemberModel {
        MemberModel {
            id: self.id@,
            node_start_time: self.node_start_time,
            metadata: texts(self.metadata@),
            sub_cluster: match self.sub_cluster {
                Some(s) => Some(s@),
                None => None,
            },
            role: self.role,
            has_kv_ssd_storage: self.has_kv_ssd_storage,
        }
    }
}

/// Whether each text of `a` is in `b` under the same name.
fn texts_within(a: &AssocMap<String, String>, b: &AssocMap<String, String>) -> (r: bool)
    requires
        a.wf(),
        b.wf(),
    ensures
        r == forall|k: Seq<char>| #[trigger]
            texts(a@).contains_key(k) ==> texts(b@).contains_key(k) && texts(b@)[k] == texts(a@)[k],
{
    let mut i: usize = 0;
    while i < a.len()
        invariant
            a.wf(),
            b.wf(),
            i <= a.rows().len(),
            forall|j: int|
                0 <= j < i ==> b@.contains_key((#[trigger] a.rows()[j]).0@)
                    && b@[a.rows()[j].0@]@ == a.rows()[j].1@,
        decreases a.rows().len() - i,
    {
        let row = a.row(i);
        let same = match b.get(&row.0) {
            Some(v) => *v == row.1,
            None => false,
        };
        if !same {
            assert(texts(a@).contains_key(row.0@));
            return false;
        }
        i += 1;
    }
    proof {
        a.lemma_rows();
        assert forall|k: Seq<char>| #[trigger] texts(a@).contains_key(k) implies texts(
            b@,
        ).contains_key(k) && texts(b@)[k] == texts(a@)[k] by {
            let j = lemma_map_has_row(a.rows(), k);
            assert(b@.contains_key(a.rows()[j].0@));
        }
    }
    true
}

/// A table with the same texts.
fn texts_dup(a: &AssocMap<String, String>) -> (r: AssocMap<String, String>)
    requires
        a.wf(),
    ensures
        r.wf(),
        texts(r@) == texts(a@),
{
    let mut r: AssocMap<String, String> = AssocMap::new();
    let mut i: usize = 0;
    while i < a.len()
        invariant
            a.wf(),
            r.wf(),
            i <= a.rows().len(),
            forall|j: int|
                0 <= j < i ==> r@.contains_key((#[trigger] a.rows()[j]).0@),
            forall|k: Seq<char>| #[trigger]
                r@.contains_key(k) ==> a@.contains_key(k) && r@[k]@ == a@[k]@,
        decreases a.rows().len() - i,
    {
        let row = a.row(i);
        r.insert(row.0.clone(), row.1.clone());
        i += 1;
    }
    proof {
        a.lemma_rows();
        assert forall|k: Seq<char>| #[trigger] a@.contains_key(k) implies r@.contains_key(k) by {
            let j = lemma_map_has_row(a.rows(), k);
            assert(r@.contains_key(a.rows()[j].0@));
        }
        assert(texts(r@) =~= texts(a@));
    }
    r
}

impl ClusterMember {
    /// Another description of the same member.
    pub fn dup(&self) -> (r: Self)
        requires
            self.wf(),
        ensures
            r.wf(),
            r@ == self@,
    {
        let r = ClusterMember {
            id: self.id.clone(),
            node_start_time: self.node_start_time,
            metadata: texts_dup(&self.metadata),
            sub_cluster: match &self.sub_cluster {
                Some(s) => Some(s.clone()),
                None => None,
            },
            role: self.role,
            has_kv_ssd_storage: self.has_kv_ssd_storage,
        };
        assert(r@ =~= self@);
        r
    }

    /// Whether two descriptions are the same.
    pub fn same(&self, other: &Self) -> (r: bool)
        requires
            self.wf(),
            other.wf(),
        ensures
            r == (self@ == other@),
    {
        let same_cluster = match (&self.sub_cluster, &other.sub_cluster) {
            (Some(a), Some(b)) => *a == *b,
            (None, None) => true,
            _ => false,
        };
        let within = texts_within(&self.metadata, &other.metadata);
        let covers = texts_within(&other.metadata, &self.metadata);
        proof {
            if within && covers {
                assert(self@.metadata =~= other@.metadata);
            }
        }
        self.id == other.id && self.node_start_time == other.node_start_time && within && covers
            && same_cluster && self.role == other.role && self.has_kv_ssd_storage
            == other.has_kv_ssd_storage
    }

    pub fn is_client(&self) -> (r: bool)
        ensures
            r == (self.role == NodeRole::Client),
    {
        self.role == NodeRole::Client
    }

    pub open spec fn wf(&self) -> bool {
        self.metadata.wf()
    }

    /// The metadata holds `value` under `key`.
    pub open spec fn has_meta(&self, key: Seq<char>, value: Seq<char>) -> bool {
        self.metadata@.contains_key(key) && self.metadata@[key]@ == value
    }

    /// The metadata holds "true" under `key`.
    pub open spec fn flag(&self, key: Seq<char>) -> bool {
        self.has_meta(key, "true"@)
    }

    pub fn meta_is(&self, key: &str, value: &str) -> (r: bool)
        requires
            self.wf(),
        ensures
            r == self.has_meta(key@, value@),
    {
        match self.metadata.get(&key.to_owned()) {
            Some(v) => str_eq(v.as_str(), value),
            None => false,
        }
    }

    pub fn is_set(&self, key: &str) -> (r: bool)
        requires
            self.wf(),
        ensures
            r == self.flag(key@),
    {
        self.meta_is(key, "true")
    }

    /// A client that owns memory of its own.
    pub open spec fn owns_segments(&self) -> bool {
        &&& self.flag("client"@)
        &&& self.flag("p2p_relay"@)
        &&& !self.flag("external_client"@)
        &&& !self.flag("side_transfer_worker"@)
    }
}

/// Whether a member is asked to register its memory: a client that relays, is not external and does
/// not merely transfer for another member.
pub fn member_ready_for_segment_registration(member: &ClusterMember) -> (r: bool)
    requires
        member.wf(),
    ensures
        r == member.owns_segments(),
{
    member.is_set("client") && member.is_set("p2p_relay") && !member.is_set("external_client")
        && !member.is_set("side_transfer_worker")
}

/// The member belongs to one of the groups.
pub open spec fn in_roles(member: ClusterMember, roles: Seq<String>) -> bool {
    member.sub_cluster matches Some(group) && names_has(roles, group@)
}

/// Whether a member is known and belongs to one of the groups.
pub fn member_matches_roles(member: Option<&ClusterMember>, roles: &Vec<String>) -> (r: bool)
    ensures
        r == (member matches Some(m) && in_roles(*m, roles@)),
{
    let group = match member {
        Some(m) => match &m.sub_cluster {
            Some(group) => group,
            None => {
                return false;
            },
        },
        None => {
            return false;
        },
    };
    let mut i: usize = 0;
    while i < roles.len()
        invariant
            i <= roles@.len(),
            member is Some,
            member->0.sub_cluster == Some(*group),
            forall|j: int| 0 <= j < i ==> (#[trigger] roles@[j])@ != group@,
        decreases roles@.len() - i,
    {
        if roles[i] == *group {
            assert(roles@[i as int]@ == group@);
            return true;
        }
        i += 1;
    }
    false
}

/// The names of the members that belong to one of the groups.
pub fn members_in_roles(members: &Vec<ClusterMember>, roles: &Vec<String>) -> (r: NameSet)
    ensures
        forall|n: Seq<char>| #[trigger]
            r@.contains(n) <==> exists|i: int|
                0 <= i < members@.len() && in_roles(#[trigger] members@[i], roles@)
                    && members@[i].id@ == n,
{
    let mut r = NameSet::new();
    let mut i: usize = 0;
    while i < members.len()
        invariant
            i <= members@.len(),
            forall|n: Seq<char>| #[trigger]
                r@.contains(n) <==> exists|j: int|
                    0 <= j < i && in_roles(#[trigger] members@[j], roles@) && members@[j].id@ == n,
        decreases members@.len() - i,
    {
        let ghost before = r@;
        let matching = member_matches_roles(Some(&members[i]), roles);
        if matching {
            r.insert(members[i].id.clone());
        }
        proof {
            assert forall|n: Seq<char>| #[trigger]
                r@.contains(n) <==> exists|j: int|
                    0 <= j < i + 1 && in_roles(#[trigger] members@[j], roles@) && members@[j].id@
                        == n by {
                if before.contains(n) {
                    let j = choose|j: int|
                        0 <= j < i && in_roles(#[trigger] members@[j], roles@) && members@[j].id@
                            == n;
                    assert(in_roles(members@[j], roles@));
                }
                if matching && members@[i as int].id@ == n {
                    assert(in_roles(members@[i as int], roles@));
                }
            }
        }
        i += 1;
    }
    r
}

} // verus!
