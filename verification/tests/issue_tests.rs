use serpyco_rs::datetime_text::{DateTimeValue, TzKind};
use serpyco_rs::issue_dump::{
    EnumTable, Issue, IssueEnums, IssueLabel, LabelItem, Milestone, Reactions, User, dump_issue,
    dump_labels, dump_user, dump_users, escape_bytes_into,
};
use serpyco_rs::issue_keys::{
    SKIP, author_association_idx, issue_key, issue_state_idx, label_key, milestone_key,
    milestone_state_idx, reactions_key, state_reason_idx, user_key,
};

fn s(v: &str) -> String {
    v.to_string()
}

fn user(login: &str) -> User {
    User {
        login: s(login),
        id: 7,
        node_id: s("N"),
        avatar_url: s("a"),
        gravatar_id: None,
        url: s("u"),
        html_url: s("h"),
        followers_url: s("f"),
        following_url: s("g"),
        gists_url: s("gi"),
        starred_url: s("st"),
        subscriptions_url: s("su"),
        organizations_url: s("o"),
        repos_url: s("r"),
        events_url: s("e"),
        received_events_url: s("re"),
        type_: s("User"),
        site_admin: false,
        name: Some(s("Ann \"A\"")),
        email: None,
        starred_at: None,
    }
}

const USER_JSON: &str = "{\"login\":\"ann\",\"id\":7,\"node_id\":\"N\",\"avatar_url\":\"a\",\"gravatar_id\":null,\"url\":\"u\",\"html_url\":\"h\",\"followers_url\":\"f\",\"following_url\":\"g\",\"gists_url\":\"gi\",\"starred_url\":\"st\",\"subscriptions_url\":\"su\",\"organizations_url\":\"o\",\"repos_url\":\"r\",\"events_url\":\"e\",\"received_events_url\":\"re\",\"type\":\"User\",\"site_admin\":false,\"name\":\"Ann \\\"A\\\"\",\"email\":null,\"starred_at\":null}";

fn table(values: &[&str]) -> EnumTable {
    let v: Vec<String> = values.iter().map(|x| x.to_string()).collect();
    EnumTable::new(&v)
}

fn enums() -> IssueEnums {
    IssueEnums {
        issue_state: table(&["open", "closed"]),
        milestone_state: table(&["open", "closed"]),
        state_reason: table(&["completed", "reopened", "not_planned"]),
        author_association: table(&["COLLABORATOR", "CONTRIBUTOR", "FIRST_TIMER", "FIRST_TIME_CONTRIBUTOR", "MANNEQUIN", "MEMBER", "NONE", "OWNER"]),
    }
}

#[test]
fn user_json_text() {
    let mut out = Vec::new();
    dump_user(&mut out, &user("ann"));
    assert_eq!(String::from_utf8(out).unwrap(), USER_JSON);
}

#[test]
fn users_and_labels_lists() {
    let mut out = Vec::new();
    dump_users(&mut out, &vec![]);
    assert_eq!(out, b"[]");
    let mut out = Vec::new();
    dump_users(&mut out, &vec![user("ann"), user("ann")]);
    assert_eq!(String::from_utf8(out).unwrap(), format!("[{},{}]", USER_JSON, USER_JSON));
    let label = IssueLabel { id: 1, node_id: s("L"), url: s("lu"), name: s("bug"), description: None, color: Some(s("f00")), default: true };
    let mut out = Vec::new();
    dump_labels(&mut out, &vec![LabelItem::Name(s("x")), LabelItem::Label(label)]);
    assert_eq!(
        String::from_utf8(out).unwrap(),
        "[\"x\",{\"id\":1,\"node_id\":\"L\",\"url\":\"lu\",\"name\":\"bug\",\"description\":null,\"color\":\"f00\",\"default\":true}]"
    );
}

#[test]
fn issue_json_text() {
    let dt = DateTimeValue { year: 2020, month: 5, day: 6, hour: 7, minute: 8, second: 9, microsecond: 0, tz: TzKind::Utc };
    let milestone = Milestone {
        url: s("mu"),
        html_url: s("mh"),
        labels_url: s("ml"),
        id: 3,
        node_id: s("MN"),
        number: 4,
        title: s("v1"),
        description: None,
        creator: None,
        open_issues: 1,
        closed_issues: 2,
        created_at: dt,
        updated_at: dt,
        closed_at: None,
        due_on: Some(dt),
        state: 1,
    };
    let reactions = Reactions { url: s("ru"), total_count: 2, plus_one: 1, minus_one: 0, laugh: 0, confused: 0, heart: 1, hooray: 0, eyes: 0, rocket: 0 };
    let issue = Issue {
        id: 10,
        node_id: s("IN"),
        url: s("iu"),
        repository_url: s("ru"),
        labels_url: s("lu"),
        comments_url: s("cu"),
        events_url: s("eu"),
        html_url: s("hu"),
        number: 11,
        state: 0,
        state_reason: Some(2),
        title: s("T"),
        body: None,
        user: None,
        labels: vec![],
        assignee: None,
        assignees: None,
        milestone: Some(milestone),
        locked: false,
        active_lock_reason: None,
        comments: 0,
        closed_at: None,
        created_at: dt,
        updated_at: dt,
        closed_by: None,
        author_association: 7,
        draft: true,
        body_html: None,
        body_text: None,
        timeline_url: Some(s("tl")),
        reactions: Some(reactions),
    };
    let mut out = Vec::new();
    dump_issue(&mut out, &issue, &enums());
    let expected = "{\"id\":10,\"node_id\":\"IN\",\"url\":\"iu\",\"repository_url\":\"ru\",\"labels_url\":\"lu\",\"comments_url\":\"cu\",\"events_url\":\"eu\",\"html_url\":\"hu\",\"number\":11,\"state\":\"open\",\"state_reason\":\"not_planned\",\"title\":\"T\",\"body\":null,\"user\":null,\"labels\":[],\"assignee\":null,\"assignees\":null,\"milestone\":{\"url\":\"mu\",\"html_url\":\"mh\",\"labels_url\":\"ml\",\"id\":3,\"node_id\":\"MN\",\"number\":4,\"title\":\"v1\",\"description\":null,\"creator\":null,\"open_issues\":1,\"closed_issues\":2,\"created_at\":\"2020-05-06T07:08:09Z\",\"updated_at\":\"2020-05-06T07:08:09Z\",\"closed_at\":null,\"due_on\":\"2020-05-06T07:08:09Z\",\"state\":\"closed\"},\"locked\":false,\"active_lock_reason\":null,\"comments\":0,\"closed_at\":null,\"created_at\":\"2020-05-06T07:08:09Z\",\"updated_at\":\"2020-05-06T07:08:09Z\",\"closed_by\":null,\"author_association\":\"OWNER\",\"draft\":true,\"body_html\":null,\"body_text\":null,\"timeline_url\":\"tl\",\"reactions\":{\"url\":\"ru\",\"total_count\":2,\"+1\":1,\"-1\":0,\"laugh\":0,\"confused\":0,\"heart\":1,\"hooray\":0,\"eyes\":0,\"rocket\":0}}";
    assert_eq!(String::from_utf8(out).unwrap(), expected);
}

#[test]
fn byte_escaping() {
    let mut out = Vec::new();
    escape_bytes_into(&mut out, b"a\"b\x1fc");
    assert_eq!(out, b"a\\\"b\\u001fc");
}

#[test]
fn field_indices() {
    assert_eq!(user_key(b"login"), 0);
    assert_eq!(user_key(b"starred_at"), 20);
    assert_eq!(user_key(b"loginx"), SKIP);
    assert_eq!(label_key(b"default"), 6);
    assert_eq!(reactions_key(b"+1"), 2);
    assert_eq!(reactions_key(b"-1"), 3);
    assert_eq!(milestone_key(b"state"), 15);
    assert_eq!(issue_key(b"reactions"), 30);
    assert_eq!(issue_key(b"id"), 0);
    assert_eq!(issue_key(b""), SKIP);
}

#[test]
fn enum_indices() {
    assert_eq!(issue_state_idx(b"closed"), Some(1));
    assert_eq!(milestone_state_idx(b"open"), Some(0));
    assert_eq!(state_reason_idx(b"not_planned"), Some(2));
    assert_eq!(author_association_idx(b"OWNER"), Some(7));
    assert_eq!(author_association_idx(b"owner"), None);
}
