//! Field names of the issue-tracker records the specialized codec reads, and
//! the values of their enumerated fields.
use crate::text::bytes_eq;
use vstd::prelude::*;
use vstd::string::StringSliceAdditionalSpecFns;

verus! {

/// Field index given to a key that names no field.
pub const SKIP: u8 = 255;

/// The position of the first name in `names[i..]` equal to `k`, or `None`.
pub open spec fn position_from(k: Seq<u8>, names: Seq<&str>, i: int) -> Option<int>
    decreases names.len() - i,
{
    if i < 0 || i >= names.len() {
        None
    } else if k == names[i].spec_bytes() {
        Some(i)
    } else {
        position_from(k, names, i + 1)
    }
}

/// The position of `k` among `names`.
fn position(k: &[u8], names: &[&str]) -> (r: Option<usize>)
    ensures
        r matches Some(i) ==> position_from(k@, names@, 0) == Some(i as int),
        r is None ==> position_from(k@, names@, 0) is None,
{
    let mut i: usize = 0;
    while i < names.len()
        invariant
            i <= names@.len(),
            position_from(k@, names@, 0) == position_from(k@, names@, i as int),
        decreases names@.len() - i,
    {
        if bytes_eq(k, names[i].as_bytes()) {
            return Some(i);
        }
        i += 1;
    }
    None
}

/// The field index of `k` among `names` (at most 255 of them), or [`SKIP`].
pub open spec fn field_index(k: Seq<u8>, names: Seq<&str>) -> u8 {
    match position_from(k, names, 0) {
        Some(i) => i as u8,
        None => SKIP,
    }
}

pub proof fn lemma_position_bound(k: Seq<u8>, names: Seq<&str>, i: int)
    requires
        0 <= i,
    ensures
        position_from(k, names, i) matches Some(p) ==> i <= p < names.len(),
    decreases names.len() - i,
{
    if i < names.len() && k != names[i].spec_bytes() {
        lemma_position_bound(k, names, i + 1);
    }
}

/// A field index below [`SKIP`] names a field.
pub proof fn lemma_field_index_bound(k: Seq<u8>, names: Seq<&str>)
    requires
        names.len() < 255,
    ensures
        field_index(k, names) != SKIP ==> field_index(k, names) < names.len(),
{
    lemma_position_bound(k, names, 0);
}

/// A lookup finds the first name equal to the key, and finds none only
/// when no name is equal to it.
pub proof fn law_position_found(k: Seq<u8>, names: Seq<&str>, i: int)
    requires
        0 <= i,
    ensures
        position_from(k, names, i) matches Some(p) ==> i <= p < names.len() && names[p].spec_bytes() == k && forall|j: int|
            i <= j < p ==> (#[trigger] names[j]).spec_bytes() != k,
        position_from(k, names, i) is None ==> forall|j: int| i <= j < names.len() ==> (#[trigger] names[j]).spec_bytes() != k,
    decreases names.len() - i,
{
    if i < names.len() && k != names[i].spec_bytes() {
        law_position_found(k, names, i + 1);
    }
}

/// A key's field index names a field with that very key; [`SKIP`] is given
/// only to a key that no field has.
pub proof fn law_field_index(k: Seq<u8>, names: Seq<&str>)
    requires
        names.len() < 255,
    ensures
        field_index(k, names) != SKIP ==> names[field_index(k, names) as int].spec_bytes() == k,
        field_index(k, names) == SKIP <==> forall|j: int| 0 <= j < names.len() ==> (#[trigger] names[j]).spec_bytes() != k,
{
    law_position_found(k, names, 0);
}

fn index_of(k: &[u8], names: &[&str]) -> (r: u8)
    requires
        names@.len() < 255,
    ensures
        r == field_index(k@, names@),
{
    proof {
        lemma_position_bound(k@, names@, 0);
    }
    match position(k, names) {
        Some(i) => i as u8,
        None => SKIP,
    }
}

pub open spec fn user_keys() -> Seq<&'static str> {
    seq![
        "login", "id", "node_id", "avatar_url", "gravatar_id", "url", "html_url", "followers_url",
        "following_url", "gists_url", "starred_url", "subscriptions_url", "organizations_url",
        "repos_url", "events_url", "received_events_url", "type", "site_admin", "name", "email",
        "starred_at",
    ]
}

pub open spec fn label_keys() -> Seq<&'static str> {
    seq!["id", "node_id", "url", "name", "description", "color", "default"]
}

pub open spec fn reactions_keys() -> Seq<&'static str> {
    seq!["url", "total_count", "+1", "-1", "laugh", "confused", "heart", "hooray", "eyes", "rocket"]
}

pub open spec fn milestone_keys() -> Seq<&'static str> {
    seq![
        "url", "html_url", "labels_url", "id", "node_id", "number", "title", "description",
        "creator", "open_issues", "closed_issues", "created_at", "updated_at", "closed_at", "due_on",
        "state",
    ]
}

pub open spec fn issue_keys() -> Seq<&'static str> {
    seq![
        "id", "node_id", "url", "repository_url", "labels_url", "comments_url", "events_url",
        "html_url", "number", "state", "state_reason", "title", "body", "user", "labels", "assignee",
        "assignees", "milestone", "locked", "active_lock_reason", "comments", "closed_at",
        "created_at", "updated_at", "closed_by", "author_association", "draft", "body_html",
        "body_text", "timeline_url", "reactions",
    ]
}

/// Field index of a user key.
pub fn user_key(k: &[u8]) -> (r: u8)
    ensures
        r == field_index(k@, user_keys()),
{
    let names = [
        "login", "id", "node_id", "avatar_url", "gravatar_id", "url", "html_url", "followers_url",
        "following_url", "gists_url", "starred_url", "subscriptions_url", "organizations_url",
        "repos_url", "events_url", "received_events_url", "type", "site_admin", "name", "email",
        "starred_at",
    ];
    assert(names@ =~= user_keys());
    index_of(k, names.as_slice())
}

/// Field index of a label key.
pub fn label_key(k: &[u8]) -> (r: u8)
    ensures
        r == field_index(k@, label_keys()),
{
    let names = ["id", "node_id", "url", "name", "description", "color", "default"];
    assert(names@ =~= label_keys());
    index_of(k, names.as_slice())
}

/// Field index of a reactions key.
pub fn reactions_key(k: &[u8]) -> (r: u8)
    ensures
        r == field_index(k@, reactions_keys()),
{
    let names = ["url", "total_count", "+1", "-1", "laugh", "confused", "heart", "hooray", "eyes", "rocket"];
    assert(names@ =~= reactions_keys());
    index_of(k, names.as_slice())
}

/// Field index of a milestone key.
pub fn milestone_key(k: &[u8]) -> (r: u8)
    ensures
        r == field_index(k@, milestone_keys()),
{
    let names = [
        "url", "html_url", "labels_url", "id", "node_id", "number", "title", "description",
        "creator", "open_issues", "closed_issues", "created_at", "updated_at", "closed_at", "due_on",
        "state",
    ];
    assert(names@ =~= milestone_keys());
    index_of(k, names.as_slice())
}

/// Field index of an issue key.
pub fn issue_key(k: &[u8]) -> (r: u8)
    ensures
        r == field_index(k@, issue_keys()),
{
    let names = [
        "id", "node_id", "url", "repository_url", "labels_url", "comments_url", "events_url",
        "html_url", "number", "state", "state_reason", "title", "body", "user", "labels", "assignee",
        "assignees", "milestone", "locked", "active_lock_reason", "comments", "closed_at",
        "created_at", "updated_at", "closed_by", "author_association", "draft", "body_html",
        "body_text", "timeline_url", "reactions",
    ];
    assert(names@ =~= issue_keys());
    index_of(k, names.as_slice())
}

pub open spec fn issue_states() -> Seq<&'static str> {
    seq!["open", "closed"]
}

pub open spec fn state_reasons() -> Seq<&'static str> {
    seq!["completed", "reopened", "not_planned"]
}

pub open spec fn author_associations() -> Seq<&'static str> {
    seq![
        "COLLABORATOR", "CONTRIBUTOR", "FIRST_TIMER", "FIRST_TIME_CONTRIBUTOR", "MANNEQUIN",
        "MEMBER", "NONE", "OWNER",
    ]
}

/// Member index of an issue state.
pub fn issue_state_idx(v: &[u8]) -> (r: Option<usize>)
    ensures
        r matches Some(i) ==> position_from(v@, issue_states(), 0) == Some(i as int),
        r is None ==> position_from(v@, issue_states(), 0) is None,
{
    let names = ["open", "closed"];
    assert(names@ =~= issue_states());
    position(v, names.as_slice())
}

/// Member index of a milestone state.
pub fn milestone_state_idx(v: &[u8]) -> (r: Option<usize>)
    ensures
        r matches Some(i) ==> position_from(v@, issue_states(), 0) == Some(i as int),
        r is None ==> position_from(v@, issue_states(), 0) is None,
{
    let names = ["open", "closed"];
    assert(names@ =~= issue_states());
    position(v, names.as_slice())
}

/// Member index of a state reason.
pub fn state_reason_idx(v: &[u8]) -> (r: Option<usize>)
    ensures
        r matches Some(i) ==> position_from(v@, state_reasons(), 0) == Some(i as int),
        r is None ==> position_from(v@, state_reasons(), 0) is None,
{
    let names = ["completed", "reopened", "not_planned"];
    assert(names@ =~= state_reasons());
    position(v, names.as_slice())
}

/// Member index of an author association.
pub fn author_association_idx(v: &[u8]) -> (r: Option<usize>)
    ensures
        r matches Some(i) ==> position_from(v@, author_associations(), 0) == Some(i as int),
        r is None ==> position_from(v@, author_associations(), 0) is None,
{
    let names = [
        "COLLABORATOR", "CONTRIBUTOR", "FIRST_TIMER", "FIRST_TIME_CONTRIBUTOR", "MANNEQUIN",
        "MEMBER", "NONE", "OWNER",
    ];
    assert(names@ =~= author_associations());
    position(v, names.as_slice())
}

} // verus!
