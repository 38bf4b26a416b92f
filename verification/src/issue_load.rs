//! Reading issue-tracker records from JSON: which field a member key feeds,
//! how that field's value is read, and which fields must be present. The
//! caller drives the member loop and builds each value.
use crate::issue_keys::{
    SKIP, field_index, issue_key, issue_keys, label_key, label_keys, milestone_key, milestone_keys,
    reactions_key, reactions_keys, user_key, user_keys,
};
use crate::json_scan::{Scan, ScanError, ScanErrorKind, cur_at, known_key_spec, next_key_spec, serr, ws_end};
use vstd::prelude::*;
use vstd::string::StringSliceAdditionalSpecFns;

verus! {

/// The records of the issue tracker.
#[derive(Debug, Clone, Copy, PartialEq, Eq, Structural)]
pub enum Entity {
    Issue,
    User,
    Label,
    Milestone,
    Reactions,
}

/// How a field's value is read.
#[derive(Debug, Clone, Copy, PartialEq, Eq, Structural)]
pub enum FieldKind {
    Str,
    OptStr,
    Int,
    Bool,
    Datetime,
    OptDatetime,
    IssueState,
    OptStateReason,
    MilestoneState,
    AuthorAssociation,
    OptUser,
    Labels,
    OptUsers,
    OptMilestone,
    OptReactions,
}

/// The kinds whose value may be `null`.
pub open spec fn nullable(kind: FieldKind) -> bool {
    kind is OptStr || kind is OptDatetime || kind is OptStateReason || kind is OptUser || kind is OptUsers
        || kind is OptMilestone || kind is OptReactions
}

/// Whether the value of a field of this kind, whose first byte is `lead`,
/// is read as `None`: the field may be `null` and the value starts with `n`.
pub fn reads_as_none(kind: FieldKind, lead: u8) -> (r: bool)
    ensures
        r == (nullable(kind) && lead == 0x6e),
{
    let nullable = match kind {
        FieldKind::OptStr | FieldKind::OptDatetime | FieldKind::OptStateReason | FieldKind::OptUser
        | FieldKind::OptUsers | FieldKind::OptMilestone | FieldKind::OptReactions => true,
        _ => false,
    };
    nullable && lead == 0x6e
}

/// What a field becomes when its key is absent.
#[derive(Debug, Clone, Copy, PartialEq, Eq, Structural)]
pub enum Presence {
    /// The record is refused.
    Required,
    /// `None`.
    NoneIfMissing,
    /// `false`.
    FalseIfMissing,
    /// The first member of its enumeration.
    FirstMember,
}

#[derive(Debug, Clone, Copy, PartialEq, Eq, Structural)]
pub struct FieldSpec {
    pub kind: FieldKind,
    pub presence: Presence,
}

pub open spec fn keys_of(e: Entity) -> Seq<&'static str> {
    match e {
        Entity::Issue => issue_keys(),
        Entity::User => user_keys(),
        Entity::Label => label_keys(),
        Entity::Milestone => milestone_keys(),
        Entity::Reactions => reactions_keys(),
    }
}

pub open spec fn fields_of(e: Entity) -> Seq<FieldSpec> {
    match e {
        Entity::Issue => issue_fields(),
        Entity::User => user_fields(),
        Entity::Label => label_fields(),
        Entity::Milestone => milestone_fields(),
        Entity::Reactions => reactions_fields(),
    }
}

/// The field a member key feeds, or [`SKIP`].
pub fn key_index(e: Entity, k: &[u8]) -> (r: u8)
    ensures
        r == field_index(k@, keys_of(e)),
{
    match e {
        Entity::Issue => issue_key(k),
        Entity::User => user_key(k),
        Entity::Label => label_key(k),
        Entity::Milestone => milestone_key(k),
        Entity::Reactions => reactions_key(k),
    }
}

pub open spec fn user_fields() -> Seq<FieldSpec> {
    seq![
        FieldSpec { kind: FieldKind::Str, presence: Presence::Required },
        FieldSpec { kind: FieldKind::Int, presence: Presence::Required },
        FieldSpec { kind: FieldKind::Str, presence: Presence::Required },
        FieldSpec { kind: FieldKind::Str, presence: Presence::Required },
        FieldSpec { kind: FieldKind::OptStr, presence: Presence::Required },
        FieldSpec { kind: FieldKind::Str, presence: Presence::Required },
        FieldSpec { kind: FieldKind::Str, presence: Presence::Required },
        FieldSpec { kind: FieldKind::Str, presence: Presence::Required },
        FieldSpec { kind: FieldKind::Str, presence: Presence::Required },
        FieldSpec { kind: FieldKind::Str, presence: Presence::Required },
        FieldSpec { kind: FieldKind::Str, presence: Presence::Required },
        FieldSpec { kind: FieldKind::Str, presence: Presence::Required },
        FieldSpec { kind: FieldKind::Str, presence: Presence::Required },
        FieldSpec { kind: FieldKind::Str, presence: Presence::Required },
        FieldSpec { kind: FieldKind::Str, presence: Presence::Required },
        FieldSpec { kind: FieldKind::Str, presence: Presence::Required },
        FieldSpec { kind: FieldKind::Str, presence: Presence::Required },
        FieldSpec { kind: FieldKind::Bool, presence: Presence::Required },
        FieldSpec { kind: FieldKind::OptStr, presence: Presence::NoneIfMissing },
        FieldSpec { kind: FieldKind::OptStr, presence: Presence::NoneIfMissing },
        FieldSpec { kind: FieldKind::OptDatetime, presence: Presence::NoneIfMissing },
    ]
}

pub open spec fn label_fields() -> Seq<FieldSpec> {
    seq![
        FieldSpec { kind: FieldKind::Int, presence: Presence::Required },
        FieldSpec { kind: FieldKind::Str, presence: Presence::Required },
        FieldSpec { kind: FieldKind::Str, presence: Presence::Required },
        FieldSpec { kind: FieldKind::Str, presence: Presence::Required },
        FieldSpec { kind: FieldKind::OptStr, presence: Presence::Required },
        FieldSpec { kind: FieldKind::OptStr, presence: Presence::Required },
        FieldSpec { kind: FieldKind::Bool, presence: Presence::Required },
    ]
}

pub open spec fn reactions_fields() -> Seq<FieldSpec> {
    seq![
        FieldSpec { kind: FieldKind::Str, presence: Presence::Required },
        FieldSpec { kind: FieldKind::Int, presence: Presence::Required },
        FieldSpec { kind: FieldKind::Int, presence: Presence::Required },
        FieldSpec { kind: FieldKind::Int, presence: Presence::Required },
        FieldSpec { kind: FieldKind::Int, presence: Presence::Required },
        FieldSpec { kind: FieldKind::Int, presence: Presence::Required },
        FieldSpec { kind: FieldKind::Int, presence: Presence::Required },
        FieldSpec { kind: FieldKind::Int, presence: Presence::Required },
        FieldSpec { kind: FieldKind::Int, presence: Presence::Required },
        FieldSpec { kind: FieldKind::Int, presence: Presence::Required },
    ]
}

pub open spec fn milestone_fields() -> Seq<FieldSpec> {
    seq![
        FieldSpec { kind: FieldKind::Str, presence: Presence::Required },
        FieldSpec { kind: FieldKind::Str, presence: Presence::Required },
        FieldSpec { kind: FieldKind::Str, presence: Presence::Required },
        FieldSpec { kind: FieldKind::Int, presence: Presence::Required },
        FieldSpec { kind: FieldKind::Str, presence: Presence::Required },
        FieldSpec { kind: FieldKind::Int, presence: Presence::Required },
        FieldSpec { kind: FieldKind::Str, presence: Presence::Required },
        FieldSpec { kind: FieldKind::OptStr, presence: Presence::Required },
        FieldSpec { kind: FieldKind::OptUser, presence: Presence::Required },
        FieldSpec { kind: FieldKind::Int, presence: Presence::Required },
        FieldSpec { kind: FieldKind::Int, presence: Presence::Required },
        FieldSpec { kind: FieldKind::Datetime, presence: Presence::Required },
        FieldSpec { kind: FieldKind::Datetime, presence: Presence::Required },
        FieldSpec { kind: FieldKind::OptDatetime, presence: Presence::Required },
        FieldSpec { kind: FieldKind::OptDatetime, presence: Presence::Required },
        FieldSpec { kind: FieldKind::MilestoneState, presence: Presence::FirstMember },
    ]
}

pub open spec fn issue_fields() -> Seq<FieldSpec> {
    seq![
        FieldSpec { kind: FieldKind::Int, presence: Presence::Required },
        FieldSpec { kind: FieldKind::Str, presence: Presence::Required },
        FieldSpec { kind: FieldKind::Str, presence: Presence::Required },
        FieldSpec { kind: FieldKind::Str, presence: Presence::Required },
        FieldSpec { kind: FieldKind::Str, presence: Presence::Required },
        FieldSpec { kind: FieldKind::Str, presence: Presence::Required },
        FieldSpec { kind: FieldKind::Str, presence: Presence::Required },
        FieldSpec { kind: FieldKind::Str, presence: Presence::Required },
        FieldSpec { kind: FieldKind::Int, presence: Presence::Required },
        FieldSpec { kind: FieldKind::IssueState, presence: Presence::Required },
        FieldSpec { kind: FieldKind::OptStateReason, presence: Presence::Required },
        FieldSpec { kind: FieldKind::Str, presence: Presence::Required },
        FieldSpec { kind: FieldKind::OptStr, presence: Presence::Required },
        FieldSpec { kind: FieldKind::OptUser, presence: Presence::Required },
        FieldSpec { kind: FieldKind::Labels, presence: Presence::Required },
        FieldSpec { kind: FieldKind::OptUser, presence: Presence::Required },
        FieldSpec { kind: FieldKind::OptUsers, presence: Presence::Required },
        FieldSpec { kind: FieldKind::OptMilestone, presence: Presence::Required },
        FieldSpec { kind: FieldKind::Bool, presence: Presence::Required },
        FieldSpec { kind: FieldKind::OptStr, presence: Presence::Required },
        FieldSpec { kind: FieldKind::Int, presence: Presence::Required },
        FieldSpec { kind: FieldKind::OptDatetime, presence: Presence::Required },
        FieldSpec { kind: FieldKind::Datetime, presence: Presence::Required },
        FieldSpec { kind: FieldKind::Datetime, presence: Presence::Required },
        FieldSpec { kind: FieldKind::OptUser, presence: Presence::Required },
        FieldSpec { kind: FieldKind::AuthorAssociation, presence: Presence::Required },
        FieldSpec { kind: FieldKind::Bool, presence: Presence::FalseIfMissing },
        FieldSpec { kind: FieldKind::OptStr, presence: Presence::NoneIfMissing },
        FieldSpec { kind: FieldKind::OptStr, presence: Presence::NoneIfMissing },
        FieldSpec { kind: FieldKind::OptStr, presence: Presence::NoneIfMissing },
        FieldSpec { kind: FieldKind::OptReactions, presence: Presence::NoneIfMissing },
    ]
}

/// The fields of an entity, in declaration order.
pub fn entity_fields(e: Entity) -> (r: Vec<FieldSpec>)
    ensures
        r@ == fields_of(e),
{
    match e {
        Entity::User => {
            let v = vec![
                FieldSpec { kind: FieldKind::Str, presence: Presence::Required },
                FieldSpec { kind: FieldKind::Int, presence: Presence::Required },
                FieldSpec { kind: FieldKind::Str, presence: Presence::Required },
                FieldSpec { kind: FieldKind::Str, presence: Presence::Required },
                FieldSpec { kind: FieldKind::OptStr, presence: Presence::Required },
                FieldSpec { kind: FieldKind::Str, presence: Presence::Required },
                FieldSpec { kind: FieldKind::Str, presence: Presence::Required },
                FieldSpec { kind: FieldKind::Str, presence: Presence::Required },
                FieldSpec { kind: FieldKind::Str, presence: Presence::Required },
                FieldSpec { kind: FieldKind::Str, presence: Presence::Required },
                FieldSpec { kind: FieldKind::Str, presence: Presence::Required },
                FieldSpec { kind: FieldKind::Str, presence: Presence::Required },
                FieldSpec { kind: FieldKind::Str, presence: Presence::Required },
                FieldSpec { kind: FieldKind::Str, presence: Presence::Required },
                FieldSpec { kind: FieldKind::Str, presence: Presence::Required },
                FieldSpec { kind: FieldKind::Str, presence: Presence::Required },
                FieldSpec { kind: FieldKind::Str, presence: Presence::Required },
                FieldSpec { kind: FieldKind::Bool, presence: Presence::Required },
                FieldSpec { kind: FieldKind::OptStr, presence: Presence::NoneIfMissing },
                FieldSpec { kind: FieldKind::OptStr, presence: Presence::NoneIfMissing },
                FieldSpec { kind: FieldKind::OptDatetime, presence: Presence::NoneIfMissing },
            ];
            assert(v@ =~= user_fields());
            v
        },
        Entity::Label => {
            let v = vec![
                FieldSpec { kind: FieldKind::Int, presence: Presence::Required },
                FieldSpec { kind: FieldKind::Str, presence: Presence::Required },
                FieldSpec { kind: FieldKind::Str, presence: Presence::Required },
                FieldSpec { kind: FieldKind::Str, presence: Presence::Required },
                FieldSpec { kind: FieldKind::OptStr, presence: Presence::Required },
                FieldSpec { kind: FieldKind::OptStr, presence: Presence::Required },
                FieldSpec { kind: FieldKind::Bool, presence: Presence::Required },
            ];
            assert(v@ =~= label_fields());
            v
        },
        Entity::Reactions => {
            let v = vec![
                FieldSpec { kind: FieldKind::Str, presence: Presence::Required },
                FieldSpec { kind: FieldKind::Int, presence: Presence::Required },
                FieldSpec { kind: FieldKind::Int, presence: Presence::Required },
                FieldSpec { kind: FieldKind::Int, presence: Presence::Required },
                FieldSpec { kind: FieldKind::Int, presence: Presence::Required },
                FieldSpec { kind: FieldKind::Int, presence: Presence::Required },
                FieldSpec { kind: FieldKind::Int, presence: Presence::Required },
                FieldSpec { kind: FieldKind::Int, presence: Presence::Required },
                FieldSpec { kind: FieldKind::Int, presence: Presence::Required },
                FieldSpec { kind: FieldKind::Int, presence: Presence::Required },
            ];
            assert(v@ =~= reactions_fields());
            v
        },
        Entity::Milestone => {
            let v = vec![
                FieldSpec { kind: FieldKind::Str, presence: Presence::Required },
                FieldSpec { kind: FieldKind::Str, presence: Presence::Required },
                FieldSpec { kind: FieldKind::Str, presence: Presence::Required },
                FieldSpec { kind: FieldKind::Int, presence: Presence::Required },
                FieldSpec { kind: FieldKind::Str, presence: Presence::Required },
                FieldSpec { kind: FieldKind::Int, presence: Presence::Required },
                FieldSpec { kind: FieldKind::Str, presence: Presence::Required },
                FieldSpec { kind: FieldKind::OptStr, presence: Presence::Required },
                FieldSpec { kind: FieldKind::OptUser, presence: Presence::Required },
                FieldSpec { kind: FieldKind::Int, presence: Presence::Required },
                FieldSpec { kind: FieldKind::Int, presence: Presence::Required },
                FieldSpec { kind: FieldKind::Datetime, presence: Presence::Required },
                FieldSpec { kind: FieldKind::Datetime, presence: Presence::Required },
                FieldSpec { kind: FieldKind::OptDatetime, presence: Presence::Required },
                FieldSpec { kind: FieldKind::OptDatetime, presence: Presence::Required },
                FieldSpec { kind: FieldKind::MilestoneState, presence: Presence::FirstMember },
            ];
            assert(v@ =~= milestone_fields());
            v
        },
        Entity::Issue => {
            let v = vec![
                FieldSpec { kind: FieldKind::Int, presence: Presence::Required },
                FieldSpec { kind: FieldKind::Str, presence: Presence::Required },
                FieldSpec { kind: FieldKind::Str, presence: Presence::Required },
                FieldSpec { kind: FieldKind::Str, presence: Presence::Required },
                FieldSpec { kind: FieldKind::Str, presence: Presence::Required },
                FieldSpec { kind: FieldKind::Str, presence: Presence::Required },
                FieldSpec { kind: FieldKind::Str, presence: Presence::Required },
                FieldSpec { kind: FieldKind::Str, presence: Presence::Required },
                FieldSpec { kind: FieldKind::Int, presence: Presence::Required },
                FieldSpec { kind: FieldKind::IssueState, presence: Presence::Required },
                FieldSpec { kind: FieldKind::OptStateReason, presence: Presence::Required },
                FieldSpec { kind: FieldKind::Str, presence: Presence::Required },
                FieldSpec { kind: FieldKind::OptStr, presence: Presence::Required },
                FieldSpec { kind: FieldKind::OptUser, presence: Presence::Required },
                FieldSpec { kind: FieldKind::Labels, presence: Presence::Required },
                FieldSpec { kind: FieldKind::OptUser, presence: Presence::Required },
                FieldSpec { kind: FieldKind::OptUsers, presence: Presence::Required },
                FieldSpec { kind: FieldKind::OptMilestone, presence: Presence::Required },
                FieldSpec { kind: FieldKind::Bool, presence: Presence::Required },
                FieldSpec { kind: FieldKind::OptStr, presence: Presence::Required },
                FieldSpec { kind: FieldKind::Int, presence: Presence::Required },
                FieldSpec { kind: FieldKind::OptDatetime, presence: Presence::Required },
                FieldSpec { kind: FieldKind::Datetime, presence: Presence::Required },
                FieldSpec { kind: FieldKind::Datetime, presence: Presence::Required },
                FieldSpec { kind: FieldKind::OptUser, presence: Presence::Required },
                FieldSpec { kind: FieldKind::AuthorAssociation, presence: Presence::Required },
                FieldSpec { kind: FieldKind::Bool, presence: Presence::FalseIfMissing },
                FieldSpec { kind: FieldKind::OptStr, presence: Presence::NoneIfMissing },
                FieldSpec { kind: FieldKind::OptStr, presence: Presence::NoneIfMissing },
                FieldSpec { kind: FieldKind::OptStr, presence: Presence::NoneIfMissing },
                FieldSpec { kind: FieldKind::OptReactions, presence: Presence::NoneIfMissing },
            ];
            assert(v@ =~= issue_fields());
            v
        },
    }
}

/// The key names of an entity's fields, in declaration order.
pub fn entity_keys(e: Entity) -> (r: Vec<&'static str>)
    ensures
        r@ == keys_of(e),
{
    match e {
        Entity::User => {
            let v = vec!["login", "id", "node_id", "avatar_url", "gravatar_id", "url", "html_url", "followers_url", "following_url", "gists_url", "starred_url", "subscriptions_url", "organizations_url", "repos_url", "events_url", "received_events_url", "type", "site_admin", "name", "email", "starred_at"];
            assert(v@ =~= user_keys());
            v
        },
        Entity::Label => {
            let v = vec!["id", "node_id", "url", "name", "description", "color", "default"];
            assert(v@ =~= label_keys());
            v
        },
        Entity::Reactions => {
            let v = vec!["url", "total_count", "+1", "-1", "laugh", "confused", "heart", "hooray", "eyes", "rocket"];
            assert(v@ =~= reactions_keys());
            v
        },
        Entity::Milestone => {
            let v = vec!["url", "html_url", "labels_url", "id", "node_id", "number", "title", "description", "creator", "open_issues", "closed_issues", "created_at", "updated_at", "closed_at", "due_on", "state"];
            assert(v@ =~= milestone_keys());
            v
        },
        Entity::Issue => {
            let v = vec!["id", "node_id", "url", "repository_url", "labels_url", "comments_url", "events_url", "html_url", "number", "state", "state_reason", "title", "body", "user", "labels", "assignee", "assignees", "milestone", "locked", "active_lock_reason", "comments", "closed_at", "created_at", "updated_at", "closed_by", "author_association", "draft", "body_html", "body_text", "timeline_url", "reactions"];
            assert(v@ =~= issue_keys());
            v
        },
    }
}
/// What to do after a member key.
#[derive(Debug, Clone, Copy, PartialEq, Eq, Structural)]
pub enum LoadStep {
    /// Read the value into field `idx`, as `spec` says.
    Field(u8, FieldSpec),
    /// The key names no field: skip its value.
    Skip,
    /// The object ended.
    End,
}

/// The member loop of one object being read.
pub struct ObjectLoad {
    entity: Entity,
    first: bool,
    seen: Vec<bool>,
    fields: Vec<FieldSpec>,
}

/// The first required field not seen, in declaration order.
pub open spec fn first_missing(fields: Seq<FieldSpec>, seen: Seq<bool>, from: int) -> Option<int>
    decreases fields.len() - from,
{
    if from < 0 || from >= fields.len() {
        None
    } else if fields[from].presence == Presence::Required && !seen[from] {
        Some(from)
    } else {
        first_missing(fields, seen, from + 1)
    }
}

impl ObjectLoad {
    pub closed spec fn entity(&self) -> Entity {
        self.entity
    }

    /// Whether the next key is the object's first.
    pub closed spec fn at_first(&self) -> bool {
        self.first
    }

    /// Which fields have been read.
    pub closed spec fn seen(&self) -> Seq<bool> {
        self.seen@
    }

    pub closed spec fn wf(&self) -> bool {
        &&& self.fields@ == fields_of(self.entity)
        &&& self.seen@.len() == self.fields@.len()
        &&& fields_of(self.entity).len() == keys_of(self.entity).len()
        &&& keys_of(self.entity).len() < 255
    }

    /// Starts reading an object of `e` whose `{` was consumed.
    pub fn new(e: Entity) -> (o: Self)
        ensures
            o.wf(),
            o.entity() == e,
            o.at_first(),
            o.seen().len() == fields_of(e).len(),
            forall|i: int| 0 <= i < o.seen().len() ==> !#[trigger] o.seen()[i],
    {
        let fields = entity_fields(e);
        let n = fields.len();
        let mut seen: Vec<bool> = Vec::with_capacity(n);
        let mut i: usize = 0;
        while i < n
            invariant
                i <= n,
                seen@.len() == i,
                forall|j: int| 0 <= j < i ==> !#[trigger] seen@[j],
            decreases n - i,
        {
            seen.push(false);
            i += 1;
        }
        let ghost keys = keys_of(e);
        assert(fields_of(e).len() == keys_of(e).len());
        ObjectLoad { entity: e, first: true, seen, fields }
    }

    /// Reads the next member key and says what to do with its value.
    pub fn step(&mut self, s: &mut Scan) -> (r: Result<LoadStep, ScanError>)
        requires
            old(self).wf(),
            old(s).wf(),
        ensures
            final(self).wf(),
            final(self).entity() == old(self).entity(),
            final(self).seen() == old(self).seen(),
            final(s).wf(),
            final(s).data() == old(s).data(),
            match next_key_spec(old(s).data(), old(s).pos(), old(self).at_first()) {
                Ok((None, p)) => r == Ok::<LoadStep, ScanError>(LoadStep::End) && final(s).pos() == p,
                Ok((Some((a, b)), p)) => {
                    let idx = field_index(old(s).data().subrange(a, b), keys_of(old(self).entity()));
                    &&& final(s).pos() == p
                    &&& !final(self).at_first()
                    &&& if idx == SKIP {
                        r == Ok::<LoadStep, ScanError>(LoadStep::Skip)
                    } else {
                        r == Ok::<LoadStep, ScanError>(LoadStep::Field(idx, fields_of(old(self).entity())[idx as int]))
                    }
                },
                Err(e) => r == Err::<LoadStep, ScanError>(e),
            },
    {
        match s.next_key(self.first)? {
            None => Ok(LoadStep::End),
            Some(key) => {
                self.first = false;
                let idx = key_index(self.entity, key);
                if idx == SKIP {
                    Ok(LoadStep::Skip)
                } else {
                    proof {
                        crate::issue_keys::lemma_field_index_bound(key@, keys_of(self.entity));
                    }
                    Ok(LoadStep::Field(idx, self.fields[idx as usize]))
                }
            },
        }
    }

    /// Records that field `idx` was read.
    pub fn mark(&mut self, idx: u8)
        requires
            old(self).wf(),
            idx < old(self).seen().len(),
        ensures
            final(self).wf(),
            final(self).entity() == old(self).entity(),
            final(self).at_first() == old(self).at_first(),
            final(self).seen() == old(self).seen().update(idx as int, true),
    {
        self.seen.set(idx as usize, true);
    }

    /// After the object ended: the key of the first required field that was
    /// never read, if any.
    pub fn finish(&self) -> (r: Result<(), &'static str>)
        requires
            self.wf(),
        ensures
            match first_missing(fields_of(self.entity()), self.seen(), 0) {
                None => r is Ok,
                Some(i) => r == Err::<(), &'static str>(keys_of(self.entity())[i]),
            },
    {
        let keys = entity_keys(self.entity);
        let mut i: usize = 0;
        while i < self.fields.len()
            invariant
                self.wf(),
                keys@ == keys_of(self.entity),
                i <= self.fields@.len(),
                first_missing(fields_of(self.entity), self.seen@, 0) == first_missing(fields_of(self.entity), self.seen@, i as int),
            decreases self.fields@.len() - i,
        {
            if self.fields[i].presence == Presence::Required && !self.seen[i] {
                return Err(keys[i]);
            }
            i += 1;
        }
        Ok(())
    }
}


/// The member layout of one entity in a document known in advance: each
/// member's key length and the field it feeds, in document order.
pub struct OrderedPlan {
    members: Vec<(usize, u8)>,
}

#[derive(Debug, Clone, Copy, PartialEq, Eq, Structural)]
pub enum PlanErrorKind {
    /// The key names no field.
    UnknownKey,
    /// The key names a field an earlier key already named.
    RepeatedKey,
}

/// Why a list of keys is no plan, and at which key.
#[derive(Debug, Clone, Copy, PartialEq, Eq, Structural)]
pub struct PlanError {
    pub kind: PlanErrorKind,
    pub index: usize,
}

/// The UTF-8 bytes of a key.
pub open spec fn key_bytes(k: String) -> Seq<u8> {
    vstd::utf8::encode_utf8(k@)
}

/// The plan of `keys[i..]`, given the fields `seen` before: the first
/// unknown or repeated key refuses it.
pub open spec fn plan_from(keys: Seq<String>, e: Entity, i: int, seen: Set<u8>) -> Result<Seq<(usize, u8)>, PlanError>
    decreases keys.len() - i,
{
    if i < 0 || i >= keys.len() {
        Ok(Seq::empty())
    } else {
        let idx = field_index(key_bytes(keys[i]), keys_of(e));
        if idx == SKIP {
            Err(PlanError { kind: PlanErrorKind::UnknownKey, index: i as usize })
        } else if seen.contains(idx) {
            Err(PlanError { kind: PlanErrorKind::RepeatedKey, index: i as usize })
        } else {
            match plan_from(keys, e, i + 1, seen.insert(idx)) {
                Ok(rest) => Ok(seq![(key_bytes(keys[i]).len() as usize, idx)] + rest),
                Err(err) => Err(err),
            }
        }
    }
}

/// The field reported missing is the first required field not read; none
/// is reported only when every required field was read.
pub proof fn law_first_missing(fields: Seq<FieldSpec>, seen: Seq<bool>, from: int)
    requires
        0 <= from,
        seen.len() == fields.len(),
    ensures
        first_missing(fields, seen, from) matches Some(j) ==> from <= j < fields.len() && fields[j].presence
            == Presence::Required && !seen[j] && forall|k: int|
            from <= k < j ==> !((#[trigger] fields[k]).presence == Presence::Required && !seen[k]),
        first_missing(fields, seen, from) is None ==> forall|k: int|
            from <= k < fields.len() ==> (#[trigger] fields[k]).presence != Presence::Required || seen[k],
    decreases fields.len() - from,
{
    if from < fields.len() && !(fields[from].presence == Presence::Required && !seen[from]) {
        law_first_missing(fields, seen, from + 1);
    }
}

/// A plan holds one member per key, in key order: the key's length and
/// the field it names, each field at most once (and none of those in
/// `seen`). It is refused at the first key that names no field, or that
/// names a field named before.
pub proof fn law_plan(keys: Seq<String>, e: Entity, i: int, seen: Set<u8>)
    requires
        0 <= i <= keys.len(),
        keys.len() <= usize::MAX,
    ensures
        plan_from(keys, e, i, seen) matches Ok(m) ==> m.len() == keys.len() - i && forall|k: int|
            0 <= k < m.len() ==> (#[trigger] m[k]).1 == field_index(key_bytes(keys[i + k]), keys_of(e)) && m[k].1 != SKIP
                && m[k].0 == key_bytes(keys[i + k]).len() as usize && !seen.contains(m[k].1) && forall|l: int|
                0 <= l < k ==> (#[trigger] m[l]).1 != m[k].1,
        plan_from(keys, e, i, seen) matches Err(x) ==> i <= x.index < keys.len() && (x.kind == PlanErrorKind::UnknownKey
            ==> field_index(key_bytes(keys[x.index as int]), keys_of(e)) == SKIP) && (x.kind == PlanErrorKind::RepeatedKey
            ==> (seen.contains(field_index(key_bytes(keys[x.index as int]), keys_of(e))) || exists|l: int|
            i <= l < x.index && field_index(key_bytes(#[trigger] keys[l]), keys_of(e)) == field_index(
                key_bytes(keys[x.index as int]),
                keys_of(e),
            ))),
    decreases keys.len() - i,
{
    if i < keys.len() {
        let idx = field_index(key_bytes(keys[i]), keys_of(e));
        if idx != SKIP && !seen.contains(idx) {
            law_plan(keys, e, i + 1, seen.insert(idx));
            if let Ok(rest) = plan_from(keys, e, i + 1, seen.insert(idx)) {
                let m = seq![(key_bytes(keys[i]).len() as usize, idx)] + rest;
                assert forall|k: int| 0 <= k < m.len() implies (#[trigger] m[k]).1 == field_index(
                    key_bytes(keys[i + k]),
                    keys_of(e),
                ) && m[k].1 != SKIP && m[k].0 == key_bytes(keys[i + k]).len() as usize && !seen.contains(m[k].1) && forall|l: int|
                    0 <= l < k ==> (#[trigger] m[l]).1 != m[k].1 by {
                    if k > 0 {
                        assert(m[k] == rest[k - 1]);
                        assert(!seen.insert(idx).contains(rest[k - 1].1));
                        assert forall|l: int| 0 <= l < k implies (#[trigger] m[l]).1 != m[k].1 by {
                            if l > 0 {
                                assert(m[l] == rest[l - 1]);
                            }
                        }
                    }
                }
            }
            if let Err(x) = plan_from(keys, e, i + 1, seen.insert(idx)) {
                let f = field_index(key_bytes(keys[x.index as int]), keys_of(e));
                if x.kind == PlanErrorKind::RepeatedKey && seen.insert(idx).contains(f) && !seen.contains(f) {
                    assert(f == idx);
                    assert(field_index(key_bytes(keys[i]), keys_of(e)) == f);
                }
            }
        }
    }
}

impl OrderedPlan {
    pub closed spec fn members(&self) -> Seq<(usize, u8)> {
        self.members@
    }

    pub fn len(&self) -> (r: usize)
        ensures
            r == self.members().len(),
    {
        self.members.len()
    }

    pub fn member(&self, i: usize) -> (r: (usize, u8))
        requires
            i < self.members().len(),
        ensures
            r == self.members()[i as int],
    {
        self.members[i]
    }
}

pub open spec fn prepend_plan(p: Seq<(usize, u8)>, r: Result<Seq<(usize, u8)>, PlanError>) -> Result<Seq<(usize, u8)>, PlanError> {
    match r {
        Ok(v) => Ok(p + v),
        Err(e) => Err(e),
    }
}

proof fn lemma_prepend_plan_empty(r: Result<Seq<(usize, u8)>, PlanError>)
    ensures
        prepend_plan(Seq::empty(), r) == r,
{
    if let Ok(v) = r {
        assert(Seq::<(usize, u8)>::empty() + v =~= v);
    }
}

proof fn lemma_prepend_plan_assoc(p: Seq<(usize, u8)>, x: (usize, u8), r: Result<Seq<(usize, u8)>, PlanError>)
    ensures
        prepend_plan(p, prepend_plan(seq![x], r)) == prepend_plan(p.push(x), r),
{
    if let Ok(v) = r {
        assert(p + (seq![x] + v) =~= p.push(x) + v);
    }
}

/// The plan of an entity from the keys of its members in document order.
pub fn take_plan(keys: &[String], e: Entity) -> (r: Result<OrderedPlan, PlanError>)
    ensures
        match plan_from(keys@, e, 0, Set::empty()) {
            Ok(m) => r matches Ok(p) && p.members() == m,
            Err(err) => r matches Err(x) && x == err,
        },
{
    let fields = entity_fields(e);
    let nfields = fields.len();
    let mut seen: Vec<bool> = Vec::with_capacity(nfields);
    let mut j: usize = 0;
    while j < nfields
        invariant
            j <= nfields,
            seen@.len() == j,
            forall|k: int| 0 <= k < j ==> !#[trigger] seen@[k],
        decreases nfields - j,
    {
        seen.push(false);
        j += 1;
    }
    let mut members: Vec<(usize, u8)> = Vec::new();
    let mut i: usize = 0;
    let ghost mut seen_set: Set<u8> = Set::empty();
    proof {
        lemma_prepend_plan_empty(plan_from(keys@, e, 0, Set::empty()));
        assert forall|k: u8| seen_set.contains(k) <==> (k < nfields && seen@[k as int]) by {
            if k < nfields {
                assert(!seen@[k as int]);
            }
        }
    }
    assert(fields_of(e).len() == keys_of(e).len());
    while i < keys.len()
        invariant
            i <= keys@.len(),
            seen@.len() == nfields,
            nfields == keys_of(e).len(),
            keys_of(e).len() < 255,
            forall|k: u8| seen_set.contains(k) <==> (k < nfields && seen@[k as int]),
            plan_from(keys@, e, 0, Set::empty()) == prepend_plan(members@, plan_from(keys@, e, i as int, seen_set)),
        decreases keys@.len() - i,
    {
        let k = keys[i].as_str().as_bytes();
        let idx = key_index(e, k);
        if idx == SKIP {
            return Err(PlanError { kind: PlanErrorKind::UnknownKey, index: i });
        }
        proof {
            crate::issue_keys::lemma_field_index_bound(k@, keys_of(e));
        }
        if seen[idx as usize] {
            return Err(PlanError { kind: PlanErrorKind::RepeatedKey, index: i });
        }
        let ghost before = members@;
        seen.set(idx as usize, true);
        members.push((k.len(), idx));
        proof {
            let x = (k.len(), idx);
            lemma_prepend_plan_assoc(before, x, plan_from(keys@, e, i + 1, seen_set.insert(idx)));
            seen_set = seen_set.insert(idx);
        }
        i += 1;
    }
    proof {
        assert(members@ + Seq::<(usize, u8)>::empty() =~= members@);
    }
    Ok(OrderedPlan { members })
}

/// Steps over the key of plan member `i` (its length known, its text not
/// read) and gives the field it feeds.
pub fn ordered_key(s: &mut Scan, plan: &OrderedPlan, i: usize, first: bool) -> (r: Result<u8, ScanError>)
    requires
        old(s).wf(),
        i < plan.members().len(),
        plan.members()[i as int].0 < usize::MAX - old(s).data().len() - 1,
    ensures
        final(s).data() == old(s).data(),
        match known_key_spec(old(s).data(), old(s).pos(), plan.members()[i as int].0 as int, first) {
            Ok(p) => r == Ok::<u8, ScanError>(plan.members()[i as int].1) && final(s).wf() && final(s).pos() == p,
            Err(e) => r == Err::<u8, ScanError>(e),
        },
{
    let (len, idx) = plan.member(i);
    s.skip_known_key(len, first)?;
    Ok(idx)
}

/// The closing `}` after the last planned member.
pub fn ordered_end(s: &mut Scan) -> (r: Result<(), ScanError>)
    requires
        old(s).wf(),
    ensures
        final(s).wf(),
        final(s).data() == old(s).data(),
        ({
            let a = ws_end(old(s).data(), old(s).pos());
            if cur_at(old(s).data(), a) == 0x7d {
                r is Ok && final(s).pos() == a + 1
            } else {
                r == Err::<(), ScanError>(serr(ScanErrorKind::PlanExpectedBrace, a))
            }
        }),
{
    s.ws();
    s.expect(0x7d, ScanErrorKind::PlanExpectedBrace)
}

} // verus!
