//! The issue-tracker records the specialized codec writes, and their JSON
//! text: field order, key text and separators are fixed by the schema.
use crate::datetime_text::{DateTimeValue, datetime_json, write_datetime};
use crate::escape::{
    all_clean, json_escape, lemma_escape_clean, lemma_escape_concat, lemma_escape_step,
    needs_escape_spec, write_escaped_byte,
};
use crate::json_scan::{Stop, find, lemma_first_from, stop_matches};
use crate::json_writer::json_string;
use crate::numtext::{decimal_text, format_i64, lemma_decimal_chars_bytes};
use crate::text::extend_bytes;
use vstd::prelude::*;
use vstd::string::StringSliceAdditionalSpecFns;
use vstd::utf8::encode_utf8;

verus! {

/// Appends `bytes` escaped for a JSON string (without the quotes): clean
/// runs are copied whole, only the bytes JSON forbids are rewritten.
pub fn escape_bytes_into(buf: &mut Vec<u8>, bytes: &[u8])
    ensures
        final(buf)@ == old(buf)@ + json_escape(bytes@),
{
    let n = bytes.len();
    let mut clean_from: usize = 0;
    loop
        invariant
            n == bytes@.len(),
            clean_from <= n,
            buf@ == old(buf)@ + json_escape(bytes@.subrange(0, clean_from as int)),
        decreases n - clean_from,
    {
        proof {
            lemma_first_from(Stop::NeedsEscape, bytes@, clean_from as int);
        }
        match find(Stop::NeedsEscape, bytes, clean_from) {
            Some(at) => {
                proof {
                    assert(all_clean(bytes@.subrange(clean_from as int, at as int))) by {
                        assert forall|m: int| 0 <= m < at - clean_from implies !needs_escape_spec(
                            #[trigger] bytes@.subrange(clean_from as int, at as int)[m],
                        ) by {
                            assert(!stop_matches(Stop::NeedsEscape, bytes@[clean_from + m]));
                        }
                    }
                    lemma_escape_step(bytes@, clean_from as int, at as int);
                }
                extend_bytes(buf, &bytes[clean_from..at]);
                write_escaped_byte(buf, bytes[at]);
                clean_from = at + 1;
            },
            None => {
                proof {
                    let rest = bytes@.subrange(clean_from as int, n as int);
                    assert(all_clean(rest)) by {
                        assert forall|m: int| 0 <= m < rest.len() implies !needs_escape_spec(#[trigger] rest[m]) by {
                            assert(!stop_matches(Stop::NeedsEscape, bytes@[clean_from + m]));
                        }
                    }
                    lemma_escape_clean(rest);
                    lemma_escape_concat(bytes@.subrange(0, clean_from as int), rest);
                    assert(bytes@.subrange(0, clean_from as int) + rest =~= bytes@);
                }
                extend_bytes(buf, &bytes[clean_from..n]);
                return;
            },
        }
    }
}

proof fn lemma_assoc3(a: Seq<u8>, b: Seq<u8>, c: Seq<u8>)
    ensures
        (a + b) + c == a + (b + c),
{
    assert((a + b) + c =~= a + (b + c));
}

/// A string's JSON text.
pub open spec fn str_json(s: Seq<char>) -> Seq<u8> {
    json_string(encode_utf8(s))
}

pub open spec fn null_json() -> Seq<u8> {
    seq![0x6eu8, 0x75u8, 0x6cu8, 0x6cu8]
}

pub open spec fn bool_json(b: bool) -> Seq<u8> {
    if b {
        seq![0x74u8, 0x72u8, 0x75u8, 0x65u8]
    } else {
        seq![0x66u8, 0x61u8, 0x6cu8, 0x73u8, 0x65u8]
    }
}

pub open spec fn opt_str_json(o: Option<String>) -> Seq<u8> {
    match o {
        None => null_json(),
        Some(s) => str_json(s@),
    }
}

pub open spec fn opt_datetime_json(o: Option<DateTimeValue>) -> Seq<u8> {
    match o {
        None => null_json(),
        Some(dt) => datetime_json(dt),
    }
}

fn put_lit(out: &mut Vec<u8>, lit: &str)
    ensures
        final(out)@ == old(out)@ + lit.spec_bytes(),
{
    extend_bytes(out, lit.as_bytes());
}

fn put_str(out: &mut Vec<u8>, s: &String)
    ensures
        final(out)@ == old(out)@ + str_json(s@),
{
    let b = s.as_str().as_bytes();
    out.reserve(b.len().saturating_add(2));
    out.push(0x22);
    escape_bytes_into(out, b);
    out.push(0x22);
    assert(out@ =~= old(out)@ + str_json(s@));
}

fn put_null(out: &mut Vec<u8>)
    ensures
        final(out)@ == old(out)@ + null_json(),
{
    out.push(0x6e);
    out.push(0x75);
    out.push(0x6c);
    out.push(0x6c);
    assert(out@ =~= old(out)@ + null_json());
}

fn put_opt_str(out: &mut Vec<u8>, s: &Option<String>)
    ensures
        final(out)@ == old(out)@ + opt_str_json(*s),
{
    match s {
        None => put_null(out),
        Some(s) => put_str(out, s),
    }
}

fn put_int(out: &mut Vec<u8>, v: i64)
    ensures
        final(out)@ == old(out)@ + decimal_text(v as int),
{
    let t = format_i64(v);
    proof {
        lemma_decimal_chars_bytes(v as int);
    }
    extend_bytes(out, t.as_str().as_bytes());
}

fn put_bool(out: &mut Vec<u8>, b: bool)
    ensures
        final(out)@ == old(out)@ + bool_json(b),
{
    if b {
        out.push(0x74);
        out.push(0x72);
        out.push(0x75);
        out.push(0x65);
    } else {
        out.push(0x66);
        out.push(0x61);
        out.push(0x6c);
        out.push(0x73);
        out.push(0x65);
    }
    assert(out@ =~= old(out)@ + bool_json(b));
}

fn put_opt_datetime(out: &mut Vec<u8>, o: &Option<DateTimeValue>)
    ensures
        final(out)@ == old(out)@ + opt_datetime_json(*o),
{
    match o {
        None => put_null(out),
        Some(dt) => write_datetime(out, dt),
    }
}

/// The members of one enumeration, each rendered once as a JSON string.
pub struct EnumTable {
    encoded: Vec<Vec<u8>>,
}

impl EnumTable {
    /// The rendered members, in declaration order.
    pub closed spec fn members(&self) -> Seq<Seq<u8>> {
        self.encoded@.map_values(|v: Vec<u8>| v@)
    }

    /// Renders each member value as a JSON string.
    pub fn new(values: &[String]) -> (t: Self)
        ensures
            t.members() == values@.map_values(|s: String| str_json(s@)),
    {
        let mut encoded: Vec<Vec<u8>> = Vec::new();
        let mut i: usize = 0;
        while i < values.len()
            invariant
                i <= values@.len(),
                encoded@.len() == i,
                forall|j: int| 0 <= j < i ==> (#[trigger] encoded@[j])@ == str_json(values@[j]@),
            decreases values@.len() - i,
        {
            let mut buf: Vec<u8> = Vec::new();
            put_str(&mut buf, &values[i]);
            encoded.push(buf);
            i += 1;
        }
        let t = EnumTable { encoded };
        assert(t.members() =~= values@.map_values(|s: String| str_json(s@)));
        t
    }

    pub fn len(&self) -> (r: usize)
        ensures
            r == self.members().len(),
    {
        self.encoded.len()
    }
}

/// The rendered member `idx`.
pub open spec fn enum_json(t: EnumTable, idx: usize) -> Seq<u8> {
    t.members()[idx as int]
}

fn put_enum(out: &mut Vec<u8>, t: &EnumTable, idx: usize)
    requires
        idx < t.members().len(),
    ensures
        final(out)@ == old(out)@ + enum_json(*t, idx),
{
    extend_bytes(out, t.encoded[idx].as_slice());
}

/// The four enumerations of the issue records.
pub struct IssueEnums {
    pub issue_state: EnumTable,
    pub milestone_state: EnumTable,
    pub state_reason: EnumTable,
    pub author_association: EnumTable,
}

/// Every enumerated field of the issue names a member of its table.
pub open spec fn issue_enums_ok(i: Issue, e: IssueEnums) -> bool {
    &&& i.state < e.issue_state.members().len()
    &&& (i.state_reason matches Some(s) ==> s < e.state_reason.members().len())
    &&& i.author_association < e.author_association.members().len()
    &&& (i.milestone matches Some(m) ==> m.state < e.milestone_state.members().len())
}

pub open spec fn opt_enum_json(t: EnumTable, o: Option<usize>) -> Seq<u8> {
    match o {
        None => null_json(),
        Some(i) => enum_json(t, i),
    }
}

fn put_opt_enum(out: &mut Vec<u8>, t: &EnumTable, o: Option<usize>)
    requires
        o matches Some(i) ==> i < t.members().len(),
    ensures
        final(out)@ == old(out)@ + opt_enum_json(*t, o),
{
    match o {
        None => put_null(out),
        Some(i) => put_enum(out, t, i),
    }
}

pub open spec fn opt_user_json(o: Option<User>) -> Seq<u8> {
    match o {
        None => null_json(),
        Some(u) => user_json(u),
    }
}

fn put_opt_user(out: &mut Vec<u8>, o: &Option<User>)
    ensures
        final(out)@ == old(out)@ + opt_user_json(*o),
{
    match o {
        None => put_null(out),
        Some(u) => dump_user(out, u),
    }
}

/// Users separated by commas.
pub open spec fn users_body(us: Seq<User>) -> Seq<u8>
    decreases us.len(),
{
    if us.len() == 0 {
        Seq::empty()
    } else if us.len() == 1 {
        user_json(us[0])
    } else {
        users_body(us.drop_last()) + seq![0x2cu8] + user_json(us.last())
    }
}

pub open spec fn users_json(us: Seq<User>) -> Seq<u8> {
    seq![0x5bu8] + users_body(us) + seq![0x5du8]
}

/// Appends a list of users.
#[verifier::spinoff_prover]
#[verifier::rlimit(40)]
pub fn dump_users(out: &mut Vec<u8>, us: &Vec<User>)
    ensures
        final(out)@ == old(out)@ + users_json(us@),
{
    let ghost o = out@;
    out.push(0x5b);
    let mut i: usize = 0;
    while i < us.len()
        invariant
            i <= us@.len(),
            out@ == o + seq![0x5bu8] + users_body(us@.subrange(0, i as int)),
        decreases us@.len() - i,
    {
        let ghost prev = us@.subrange(0, i as int);
        let ghost next = us@.subrange(0, i as int + 1);
        assert(next.drop_last() =~= prev);
        if i != 0 {
            out.push(0x2c);
        }
        let ghost before = out@;
        dump_user(out, &us[i]);
        i += 1;
        proof {
            if i > 1 {
                assert(before == o + seq![0x5bu8] + users_body(prev) + seq![0x2cu8]);
                lemma_assoc3(o + seq![0x5bu8], users_body(prev) + seq![0x2cu8], user_json(us@[i - 1]));
                lemma_assoc3(o + seq![0x5bu8], users_body(prev), seq![0x2cu8]);
            } else {
                assert(users_body(next) == user_json(us@[0]));
            }
        }
    }
    assert(us@.subrange(0, i as int) =~= us@);
    out.push(0x5d);
    assert(out@ =~= o + users_json(us@));
}

pub open spec fn opt_users_json(o: Option<Vec<User>>) -> Seq<u8> {
    match o {
        None => null_json(),
        Some(v) => users_json(v@),
    }
}

fn put_opt_users(out: &mut Vec<u8>, o: &Option<Vec<User>>)
    ensures
        final(out)@ == old(out)@ + opt_users_json(*o),
{
    match o {
        None => put_null(out),
        Some(v) => dump_users(out, v),
    }
}

/// A label as the issue lists it: by name alone, or in full.
#[derive(Debug)]
pub enum LabelItem {
    Name(String),
    Label(IssueLabel),
}

pub open spec fn label_item_json(l: LabelItem) -> Seq<u8> {
    match l {
        LabelItem::Name(s) => str_json(s@),
        LabelItem::Label(l) => label_json(l),
    }
}

/// Labels separated by commas.
pub open spec fn labels_body(ls: Seq<LabelItem>) -> Seq<u8>
    decreases ls.len(),
{
    if ls.len() == 0 {
        Seq::empty()
    } else if ls.len() == 1 {
        label_item_json(ls[0])
    } else {
        labels_body(ls.drop_last()) + seq![0x2cu8] + label_item_json(ls.last())
    }
}

pub open spec fn labels_json(ls: Seq<LabelItem>) -> Seq<u8> {
    seq![0x5bu8] + labels_body(ls) + seq![0x5du8]
}

/// Appends a list of labels.
pub fn dump_labels(out: &mut Vec<u8>, ls: &Vec<LabelItem>)
    ensures
        final(out)@ == old(out)@ + labels_json(ls@),
{
    let ghost o = out@;
    out.push(0x5b);
    let mut i: usize = 0;
    while i < ls.len()
        invariant
            i <= ls@.len(),
            out@ == o + seq![0x5bu8] + labels_body(ls@.subrange(0, i as int)),
        decreases ls@.len() - i,
    {
        let ghost prev = ls@.subrange(0, i as int);
        let ghost next = ls@.subrange(0, i as int + 1);
        assert(next.drop_last() =~= prev);
        if i != 0 {
            out.push(0x2c);
        }
        let ghost before = out@;
        match &ls[i] {
            LabelItem::Name(s) => put_str(out, s),
            LabelItem::Label(l) => dump_label(out, l),
        }
        i += 1;
        proof {
            if i > 1 {
                assert(before == o + seq![0x5bu8] + labels_body(prev) + seq![0x2cu8]);
                lemma_assoc3(o + seq![0x5bu8], labels_body(prev) + seq![0x2cu8], label_item_json(ls@[i - 1]));
                lemma_assoc3(o + seq![0x5bu8], labels_body(prev), seq![0x2cu8]);
            } else {
                assert(labels_body(next) == label_item_json(ls@[0]));
            }
        }
    }
    assert(ls@.subrange(0, i as int) =~= ls@);
    out.push(0x5d);
    assert(out@ =~= o + labels_json(ls@));
}

pub open spec fn opt_milestone_json(o: Option<Milestone>, enums: IssueEnums) -> Seq<u8> {
    match o {
        None => null_json(),
        Some(m) => milestone_json(m, enums),
    }
}

fn put_opt_milestone(out: &mut Vec<u8>, o: &Option<Milestone>, enums: &IssueEnums)
    requires
        o matches Some(m) ==> m.state < enums.milestone_state.members().len(),
    ensures
        final(out)@ == old(out)@ + opt_milestone_json(*o, *enums),
{
    match o {
        None => put_null(out),
        Some(m) => dump_milestone(out, m, enums),
    }
}

pub open spec fn opt_reactions_json(o: Option<Reactions>) -> Seq<u8> {
    match o {
        None => null_json(),
        Some(r) => reactions_json(r),
    }
}

fn put_opt_reactions(out: &mut Vec<u8>, o: &Option<Reactions>)
    ensures
        final(out)@ == old(out)@ + opt_reactions_json(*o),
{
    match o {
        None => put_null(out),
        Some(r) => dump_reactions(out, r),
    }
}

/// A user account.
#[derive(Debug)]
pub struct User {
    pub login: String,
    pub id: i64,
    pub node_id: String,
    pub avatar_url: String,
    pub gravatar_id: Option<String>,
    pub url: String,
    pub html_url: String,
    pub followers_url: String,
    pub following_url: String,
    pub gists_url: String,
    pub starred_url: String,
    pub subscriptions_url: String,
    pub organizations_url: String,
    pub repos_url: String,
    pub events_url: String,
    pub received_events_url: String,
    pub type_: String,
    pub site_admin: bool,
    pub name: Option<String>,
    pub email: Option<String>,
    pub starred_at: Option<DateTimeValue>,
}

/// The JSON text of a User.
pub open spec fn user_json(r: User) -> Seq<u8> {
    "{\"login\":".spec_bytes()
        + str_json(r.login@)
        + ",\"id\":".spec_bytes()
        + decimal_text(r.id as int)
        + ",\"node_id\":".spec_bytes()
        + str_json(r.node_id@)
        + ",\"avatar_url\":".spec_bytes()
        + str_json(r.avatar_url@)
        + ",\"gravatar_id\":".spec_bytes()
        + opt_str_json(r.gravatar_id)
        + ",\"url\":".spec_bytes()
        + str_json(r.url@)
        + ",\"html_url\":".spec_bytes()
        + str_json(r.html_url@)
        + ",\"followers_url\":".spec_bytes()
        + str_json(r.followers_url@)
        + ",\"following_url\":".spec_bytes()
        + str_json(r.following_url@)
        + ",\"gists_url\":".spec_bytes()
        + str_json(r.gists_url@)
        + ",\"starred_url\":".spec_bytes()
        + str_json(r.starred_url@)
        + ",\"subscriptions_url\":".spec_bytes()
        + str_json(r.subscriptions_url@)
        + ",\"organizations_url\":".spec_bytes()
        + str_json(r.organizations_url@)
        + ",\"repos_url\":".spec_bytes()
        + str_json(r.repos_url@)
        + ",\"events_url\":".spec_bytes()
        + str_json(r.events_url@)
        + ",\"received_events_url\":".spec_bytes()
        + str_json(r.received_events_url@)
        + ",\"type\":".spec_bytes()
        + str_json(r.type_@)
        + ",\"site_admin\":".spec_bytes()
        + bool_json(r.site_admin)
        + ",\"name\":".spec_bytes()
        + opt_str_json(r.name)
        + ",\"email\":".spec_bytes()
        + opt_str_json(r.email)
        + ",\"starred_at\":".spec_bytes()
        + opt_datetime_json(r.starred_at)
        + seq![0x7du8]
}

/// Appends the JSON text of a User.
pub fn dump_user(out: &mut Vec<u8>, r: &User)
    ensures
        final(out)@ == old(out)@ + user_json(*r),
{
    let ghost o = out@;
    put_lit(out, "{\"login\":");
    let ghost mut acc = "{\"login\":".spec_bytes();
    put_str(out, &r.login);
    proof { lemma_assoc3(o, acc, str_json((*r).login@)); acc = acc + str_json((*r).login@); }
    put_lit(out, ",\"id\":");
    proof { lemma_assoc3(o, acc, ",\"id\":".spec_bytes()); acc = acc + ",\"id\":".spec_bytes(); }
    put_int(out, r.id);
    proof { lemma_assoc3(o, acc, decimal_text((*r).id as int)); acc = acc + decimal_text((*r).id as int); }
    put_lit(out, ",\"node_id\":");
    proof { lemma_assoc3(o, acc, ",\"node_id\":".spec_bytes()); acc = acc + ",\"node_id\":".spec_bytes(); }
    put_str(out, &r.node_id);
    proof { lemma_assoc3(o, acc, str_json((*r).node_id@)); acc = acc + str_json((*r).node_id@); }
    put_lit(out, ",\"avatar_url\":");
    proof { lemma_assoc3(o, acc, ",\"avatar_url\":".spec_bytes()); acc = acc + ",\"avatar_url\":".spec_bytes(); }
    put_str(out, &r.avatar_url);
    proof { lemma_assoc3(o, acc, str_json((*r).avatar_url@)); acc = acc + str_json((*r).avatar_url@); }
    put_lit(out, ",\"gravatar_id\":");
    proof { lemma_assoc3(o, acc, ",\"gravatar_id\":".spec_bytes()); acc = acc + ",\"gravatar_id\":".spec_bytes(); }
    put_opt_str(out, &r.gravatar_id);
    proof { lemma_assoc3(o, acc, opt_str_json((*r).gravatar_id)); acc = acc + opt_str_json((*r).gravatar_id); }
    put_lit(out, ",\"url\":");
    proof { lemma_assoc3(o, acc, ",\"url\":".spec_bytes()); acc = acc + ",\"url\":".spec_bytes(); }
    put_str(out, &r.url);
    proof { lemma_assoc3(o, acc, str_json((*r).url@)); acc = acc + str_json((*r).url@); }
    put_lit(out, ",\"html_url\":");
    proof { lemma_assoc3(o, acc, ",\"html_url\":".spec_bytes()); acc = acc + ",\"html_url\":".spec_bytes(); }
    put_str(out, &r.html_url);
    proof { lemma_assoc3(o, acc, str_json((*r).html_url@)); acc = acc + str_json((*r).html_url@); }
    put_lit(out, ",\"followers_url\":");
    proof { lemma_assoc3(o, acc, ",\"followers_url\":".spec_bytes()); acc = acc + ",\"followers_url\":".spec_bytes(); }
    put_str(out, &r.followers_url);
    proof { lemma_assoc3(o, acc, str_json((*r).followers_url@)); acc = acc + str_json((*r).followers_url@); }
    put_lit(out, ",\"following_url\":");
    proof { lemma_assoc3(o, acc, ",\"following_url\":".spec_bytes()); acc = acc + ",\"following_url\":".spec_bytes(); }
    put_str(out, &r.following_url);
    proof { lemma_assoc3(o, acc, str_json((*r).following_url@)); acc = acc + str_json((*r).following_url@); }
    put_lit(out, ",\"gists_url\":");
    proof { lemma_assoc3(o, acc, ",\"gists_url\":".spec_bytes()); acc = acc + ",\"gists_url\":".spec_bytes(); }
    put_str(out, &r.gists_url);
    proof { lemma_assoc3(o, acc, str_json((*r).gists_url@)); acc = acc + str_json((*r).gists_url@); }
    put_lit(out, ",\"starred_url\":");
    proof { lemma_assoc3(o, acc, ",\"starred_url\":".spec_bytes()); acc = acc + ",\"starred_url\":".spec_bytes(); }
    put_str(out, &r.starred_url);
    proof { lemma_assoc3(o, acc, str_json((*r).starred_url@)); acc = acc + str_json((*r).starred_url@); }
    put_lit(out, ",\"subscriptions_url\":");
    proof { lemma_assoc3(o, acc, ",\"subscriptions_url\":".spec_bytes()); acc = acc + ",\"subscriptions_url\":".spec_bytes(); }
    put_str(out, &r.subscriptions_url);
    proof { lemma_assoc3(o, acc, str_json((*r).subscriptions_url@)); acc = acc + str_json((*r).subscriptions_url@); }
    put_lit(out, ",\"organizations_url\":");
    proof { lemma_assoc3(o, acc, ",\"organizations_url\":".spec_bytes()); acc = acc + ",\"organizations_url\":".spec_bytes(); }
    put_str(out, &r.organizations_url);
    proof { lemma_assoc3(o, acc, str_json((*r).organizations_url@)); acc = acc + str_json((*r).organizations_url@); }
    put_lit(out, ",\"repos_url\":");
    proof { lemma_assoc3(o, acc, ",\"repos_url\":".spec_bytes()); acc = acc + ",\"repos_url\":".spec_bytes(); }
    put_str(out, &r.repos_url);
    proof { lemma_assoc3(o, acc, str_json((*r).repos_url@)); acc = acc + str_json((*r).repos_url@); }
    put_lit(out, ",\"events_url\":");
    proof { lemma_assoc3(o, acc, ",\"events_url\":".spec_bytes()); acc = acc + ",\"events_url\":".spec_bytes(); }
    put_str(out, &r.events_url);
    proof { lemma_assoc3(o, acc, str_json((*r).events_url@)); acc = acc + str_json((*r).events_url@); }
    put_lit(out, ",\"received_events_url\":");
    proof { lemma_assoc3(o, acc, ",\"received_events_url\":".spec_bytes()); acc = acc + ",\"received_events_url\":".spec_bytes(); }
    put_str(out, &r.received_events_url);
    proof { lemma_assoc3(o, acc, str_json((*r).received_events_url@)); acc = acc + str_json((*r).received_events_url@); }
    put_lit(out, ",\"type\":");
    proof { lemma_assoc3(o, acc, ",\"type\":".spec_bytes()); acc = acc + ",\"type\":".spec_bytes(); }
    put_str(out, &r.type_);
    proof { lemma_assoc3(o, acc, str_json((*r).type_@)); acc = acc + str_json((*r).type_@); }
    put_lit(out, ",\"site_admin\":");
    proof { lemma_assoc3(o, acc, ",\"site_admin\":".spec_bytes()); acc = acc + ",\"site_admin\":".spec_bytes(); }
    put_bool(out, r.site_admin);
    proof { lemma_assoc3(o, acc, bool_json((*r).site_admin)); acc = acc + bool_json((*r).site_admin); }
    put_lit(out, ",\"name\":");
    proof { lemma_assoc3(o, acc, ",\"name\":".spec_bytes()); acc = acc + ",\"name\":".spec_bytes(); }
    put_opt_str(out, &r.name);
    proof { lemma_assoc3(o, acc, opt_str_json((*r).name)); acc = acc + opt_str_json((*r).name); }
    put_lit(out, ",\"email\":");
    proof { lemma_assoc3(o, acc, ",\"email\":".spec_bytes()); acc = acc + ",\"email\":".spec_bytes(); }
    put_opt_str(out, &r.email);
    proof { lemma_assoc3(o, acc, opt_str_json((*r).email)); acc = acc + opt_str_json((*r).email); }
    put_lit(out, ",\"starred_at\":");
    proof { lemma_assoc3(o, acc, ",\"starred_at\":".spec_bytes()); acc = acc + ",\"starred_at\":".spec_bytes(); }
    put_opt_datetime(out, &r.starred_at);
    proof { lemma_assoc3(o, acc, opt_datetime_json((*r).starred_at)); acc = acc + opt_datetime_json((*r).starred_at); }
    out.push(0x7d);
    proof { lemma_assoc3(o, acc, seq![0x7du8]); acc = acc + seq![0x7du8]; }
}

/// A label attached to an issue.
#[derive(Debug)]
pub struct IssueLabel {
    pub id: i64,
    pub node_id: String,
    pub url: String,
    pub name: String,
    pub description: Option<String>,
    pub color: Option<String>,
    pub default: bool,
}

/// The JSON text of a IssueLabel.
pub open spec fn label_json(r: IssueLabel) -> Seq<u8> {
    "{\"id\":".spec_bytes()
        + decimal_text(r.id as int)
        + ",\"node_id\":".spec_bytes()
        + str_json(r.node_id@)
        + ",\"url\":".spec_bytes()
        + str_json(r.url@)
        + ",\"name\":".spec_bytes()
        + str_json(r.name@)
        + ",\"description\":".spec_bytes()
        + opt_str_json(r.description)
        + ",\"color\":".spec_bytes()
        + opt_str_json(r.color)
        + ",\"default\":".spec_bytes()
        + bool_json(r.default)
        + seq![0x7du8]
}

/// Appends the JSON text of a IssueLabel.
pub fn dump_label(out: &mut Vec<u8>, r: &IssueLabel)
    ensures
        final(out)@ == old(out)@ + label_json(*r),
{
    let ghost o = out@;
    put_lit(out, "{\"id\":");
    let ghost mut acc = "{\"id\":".spec_bytes();
    put_int(out, r.id);
    proof { lemma_assoc3(o, acc, decimal_text((*r).id as int)); acc = acc + decimal_text((*r).id as int); }
    put_lit(out, ",\"node_id\":");
    proof { lemma_assoc3(o, acc, ",\"node_id\":".spec_bytes()); acc = acc + ",\"node_id\":".spec_bytes(); }
    put_str(out, &r.node_id);
    proof { lemma_assoc3(o, acc, str_json((*r).node_id@)); acc = acc + str_json((*r).node_id@); }
    put_lit(out, ",\"url\":");
    proof { lemma_assoc3(o, acc, ",\"url\":".spec_bytes()); acc = acc + ",\"url\":".spec_bytes(); }
    put_str(out, &r.url);
    proof { lemma_assoc3(o, acc, str_json((*r).url@)); acc = acc + str_json((*r).url@); }
    put_lit(out, ",\"name\":");
    proof { lemma_assoc3(o, acc, ",\"name\":".spec_bytes()); acc = acc + ",\"name\":".spec_bytes(); }
    put_str(out, &r.name);
    proof { lemma_assoc3(o, acc, str_json((*r).name@)); acc = acc + str_json((*r).name@); }
    put_lit(out, ",\"description\":");
    proof { lemma_assoc3(o, acc, ",\"description\":".spec_bytes()); acc = acc + ",\"description\":".spec_bytes(); }
    put_opt_str(out, &r.description);
    proof { lemma_assoc3(o, acc, opt_str_json((*r).description)); acc = acc + opt_str_json((*r).description); }
    put_lit(out, ",\"color\":");
    proof { lemma_assoc3(o, acc, ",\"color\":".spec_bytes()); acc = acc + ",\"color\":".spec_bytes(); }
    put_opt_str(out, &r.color);
    proof { lemma_assoc3(o, acc, opt_str_json((*r).color)); acc = acc + opt_str_json((*r).color); }
    put_lit(out, ",\"default\":");
    proof { lemma_assoc3(o, acc, ",\"default\":".spec_bytes()); acc = acc + ",\"default\":".spec_bytes(); }
    put_bool(out, r.default);
    proof { lemma_assoc3(o, acc, bool_json((*r).default)); acc = acc + bool_json((*r).default); }
    out.push(0x7d);
    proof { lemma_assoc3(o, acc, seq![0x7du8]); acc = acc + seq![0x7du8]; }
}

/// Reaction counts.
#[derive(Debug)]
pub struct Reactions {
    pub url: String,
    pub total_count: i64,
    pub plus_one: i64,
    pub minus_one: i64,
    pub laugh: i64,
    pub confused: i64,
    pub heart: i64,
    pub hooray: i64,
    pub eyes: i64,
    pub rocket: i64,
}

/// The JSON text of a Reactions.
pub open spec fn reactions_json(r: Reactions) -> Seq<u8> {
    "{\"url\":".spec_bytes()
        + str_json(r.url@)
        + ",\"total_count\":".spec_bytes()
        + decimal_text(r.total_count as int)
        + ",\"+1\":".spec_bytes()
        + decimal_text(r.plus_one as int)
        + ",\"-1\":".spec_bytes()
        + decimal_text(r.minus_one as int)
        + ",\"laugh\":".spec_bytes()
        + decimal_text(r.laugh as int)
        + ",\"confused\":".spec_bytes()
        + decimal_text(r.confused as int)
        + ",\"heart\":".spec_bytes()
        + decimal_text(r.heart as int)
        + ",\"hooray\":".spec_bytes()
        + decimal_text(r.hooray as int)
        + ",\"eyes\":".spec_bytes()
        + decimal_text(r.eyes as int)
        + ",\"rocket\":".spec_bytes()
        + decimal_text(r.rocket as int)
        + seq![0x7du8]
}

/// Appends the JSON text of a Reactions.
pub fn dump_reactions(out: &mut Vec<u8>, r: &Reactions)
    ensures
        final(out)@ == old(out)@ + reactions_json(*r),
{
    let ghost o = out@;
    put_lit(out, "{\"url\":");
    let ghost mut acc = "{\"url\":".spec_bytes();
    put_str(out, &r.url);
    proof { lemma_assoc3(o, acc, str_json((*r).url@)); acc = acc + str_json((*r).url@); }
    put_lit(out, ",\"total_count\":");
    proof { lemma_assoc3(o, acc, ",\"total_count\":".spec_bytes()); acc = acc + ",\"total_count\":".spec_bytes(); }
    put_int(out, r.total_count);
    proof { lemma_assoc3(o, acc, decimal_text((*r).total_count as int)); acc = acc + decimal_text((*r).total_count as int); }
    put_lit(out, ",\"+1\":");
    proof { lemma_assoc3(o, acc, ",\"+1\":".spec_bytes()); acc = acc + ",\"+1\":".spec_bytes(); }
    put_int(out, r.plus_one);
    proof { lemma_assoc3(o, acc, decimal_text((*r).plus_one as int)); acc = acc + decimal_text((*r).plus_one as int); }
    put_lit(out, ",\"-1\":");
    proof { lemma_assoc3(o, acc, ",\"-1\":".spec_bytes()); acc = acc + ",\"-1\":".spec_bytes(); }
    put_int(out, r.minus_one);
    proof { lemma_assoc3(o, acc, decimal_text((*r).minus_one as int)); acc = acc + decimal_text((*r).minus_one as int); }
    put_lit(out, ",\"laugh\":");
    proof { lemma_assoc3(o, acc, ",\"laugh\":".spec_bytes()); acc = acc + ",\"laugh\":".spec_bytes(); }
    put_int(out, r.laugh);
    proof { lemma_assoc3(o, acc, decimal_text((*r).laugh as int)); acc = acc + decimal_text((*r).laugh as int); }
    put_lit(out, ",\"confused\":");
    proof { lemma_assoc3(o, acc, ",\"confused\":".spec_bytes()); acc = acc + ",\"confused\":".spec_bytes(); }
    put_int(out, r.confused);
    proof { lemma_assoc3(o, acc, decimal_text((*r).confused as int)); acc = acc + decimal_text((*r).confused as int); }
    put_lit(out, ",\"heart\":");
    proof { lemma_assoc3(o, acc, ",\"heart\":".spec_bytes()); acc = acc + ",\"heart\":".spec_bytes(); }
    put_int(out, r.heart);
    proof { lemma_assoc3(o, acc, decimal_text((*r).heart as int)); acc = acc + decimal_text((*r).heart as int); }
    put_lit(out, ",\"hooray\":");
    proof { lemma_assoc3(o, acc, ",\"hooray\":".spec_bytes()); acc = acc + ",\"hooray\":".spec_bytes(); }
    put_int(out, r.hooray);
    proof { lemma_assoc3(o, acc, decimal_text((*r).hooray as int)); acc = acc + decimal_text((*r).hooray as int); }
    put_lit(out, ",\"eyes\":");
    proof { lemma_assoc3(o, acc, ",\"eyes\":".spec_bytes()); acc = acc + ",\"eyes\":".spec_bytes(); }
    put_int(out, r.eyes);
    proof { lemma_assoc3(o, acc, decimal_text((*r).eyes as int)); acc = acc + decimal_text((*r).eyes as int); }
    put_lit(out, ",\"rocket\":");
    proof { lemma_assoc3(o, acc, ",\"rocket\":".spec_bytes()); acc = acc + ",\"rocket\":".spec_bytes(); }
    put_int(out, r.rocket);
    proof { lemma_assoc3(o, acc, decimal_text((*r).rocket as int)); acc = acc + decimal_text((*r).rocket as int); }
    out.push(0x7d);
    proof { lemma_assoc3(o, acc, seq![0x7du8]); acc = acc + seq![0x7du8]; }
}

/// A milestone.
#[derive(Debug)]
pub struct Milestone {
    pub url: String,
    pub html_url: String,
    pub labels_url: String,
    pub id: i64,
    pub node_id: String,
    pub number: i64,
    pub title: String,
    pub description: Option<String>,
    pub creator: Option<User>,
    pub open_issues: i64,
    pub closed_issues: i64,
    pub created_at: DateTimeValue,
    pub updated_at: DateTimeValue,
    pub closed_at: Option<DateTimeValue>,
    pub due_on: Option<DateTimeValue>,
    pub state: usize,
}

/// The JSON text of a Milestone.
pub open spec fn milestone_json(r: Milestone, enums: IssueEnums) -> Seq<u8> {
    "{\"url\":".spec_bytes()
        + str_json(r.url@)
        + ",\"html_url\":".spec_bytes()
        + str_json(r.html_url@)
        + ",\"labels_url\":".spec_bytes()
        + str_json(r.labels_url@)
        + ",\"id\":".spec_bytes()
        + decimal_text(r.id as int)
        + ",\"node_id\":".spec_bytes()
        + str_json(r.node_id@)
        + ",\"number\":".spec_bytes()
        + decimal_text(r.number as int)
        + ",\"title\":".spec_bytes()
        + str_json(r.title@)
        + ",\"description\":".spec_bytes()
        + opt_str_json(r.description)
        + ",\"creator\":".spec_bytes()
        + opt_user_json(r.creator)
        + ",\"open_issues\":".spec_bytes()
        + decimal_text(r.open_issues as int)
        + ",\"closed_issues\":".spec_bytes()
        + decimal_text(r.closed_issues as int)
        + ",\"created_at\":".spec_bytes()
        + datetime_json(r.created_at)
        + ",\"updated_at\":".spec_bytes()
        + datetime_json(r.updated_at)
        + ",\"closed_at\":".spec_bytes()
        + opt_datetime_json(r.closed_at)
        + ",\"due_on\":".spec_bytes()
        + opt_datetime_json(r.due_on)
        + ",\"state\":".spec_bytes()
        + enum_json(enums.milestone_state, r.state)
        + seq![0x7du8]
}

/// Appends the JSON text of a Milestone.
pub fn dump_milestone(out: &mut Vec<u8>, r: &Milestone, enums: &IssueEnums)
    requires
        r.state < enums.milestone_state.members().len(),
    ensures
        final(out)@ == old(out)@ + milestone_json(*r, *enums),
{
    let ghost o = out@;
    put_lit(out, "{\"url\":");
    let ghost mut acc = "{\"url\":".spec_bytes();
    put_str(out, &r.url);
    proof { lemma_assoc3(o, acc, str_json((*r).url@)); acc = acc + str_json((*r).url@); }
    put_lit(out, ",\"html_url\":");
    proof { lemma_assoc3(o, acc, ",\"html_url\":".spec_bytes()); acc = acc + ",\"html_url\":".spec_bytes(); }
    put_str(out, &r.html_url);
    proof { lemma_assoc3(o, acc, str_json((*r).html_url@)); acc = acc + str_json((*r).html_url@); }
    put_lit(out, ",\"labels_url\":");
    proof { lemma_assoc3(o, acc, ",\"labels_url\":".spec_bytes()); acc = acc + ",\"labels_url\":".spec_bytes(); }
    put_str(out, &r.labels_url);
    proof { lemma_assoc3(o, acc, str_json((*r).labels_url@)); acc = acc + str_json((*r).labels_url@); }
    put_lit(out, ",\"id\":");
    proof { lemma_assoc3(o, acc, ",\"id\":".spec_bytes()); acc = acc + ",\"id\":".spec_bytes(); }
    put_int(out, r.id);
    proof { lemma_assoc3(o, acc, decimal_text((*r).id as int)); acc = acc + decimal_text((*r).id as int); }
    put_lit(out, ",\"node_id\":");
    proof { lemma_assoc3(o, acc, ",\"node_id\":".spec_bytes()); acc = acc + ",\"node_id\":".spec_bytes(); }
    put_str(out, &r.node_id);
    proof { lemma_assoc3(o, acc, str_json((*r).node_id@)); acc = acc + str_json((*r).node_id@); }
    put_lit(out, ",\"number\":");
    proof { lemma_assoc3(o, acc, ",\"number\":".spec_bytes()); acc = acc + ",\"number\":".spec_bytes(); }
    put_int(out, r.number);
    proof { lemma_assoc3(o, acc, decimal_text((*r).number as int)); acc = acc + decimal_text((*r).number as int); }
    put_lit(out, ",\"title\":");
    proof { lemma_assoc3(o, acc, ",\"title\":".spec_bytes()); acc = acc + ",\"title\":".spec_bytes(); }
    put_str(out, &r.title);
    proof { lemma_assoc3(o, acc, str_json((*r).title@)); acc = acc + str_json((*r).title@); }
    put_lit(out, ",\"description\":");
    proof { lemma_assoc3(o, acc, ",\"description\":".spec_bytes()); acc = acc + ",\"description\":".spec_bytes(); }
    put_opt_str(out, &r.description);
    proof { lemma_assoc3(o, acc, opt_str_json((*r).description)); acc = acc + opt_str_json((*r).description); }
    put_lit(out, ",\"creator\":");
    proof { lemma_assoc3(o, acc, ",\"creator\":".spec_bytes()); acc = acc + ",\"creator\":".spec_bytes(); }
    put_opt_user(out, &r.creator);
    proof { lemma_assoc3(o, acc, opt_user_json((*r).creator)); acc = acc + opt_user_json((*r).creator); }
    put_lit(out, ",\"open_issues\":");
    proof { lemma_assoc3(o, acc, ",\"open_issues\":".spec_bytes()); acc = acc + ",\"open_issues\":".spec_bytes(); }
    put_int(out, r.open_issues);
    proof { lemma_assoc3(o, acc, decimal_text((*r).open_issues as int)); acc = acc + decimal_text((*r).open_issues as int); }
    put_lit(out, ",\"closed_issues\":");
    proof { lemma_assoc3(o, acc, ",\"closed_issues\":".spec_bytes()); acc = acc + ",\"closed_issues\":".spec_bytes(); }
    put_int(out, r.closed_issues);
    proof { lemma_assoc3(o, acc, decimal_text((*r).closed_issues as int)); acc = acc + decimal_text((*r).closed_issues as int); }
    put_lit(out, ",\"created_at\":");
    proof { lemma_assoc3(o, acc, ",\"created_at\":".spec_bytes()); acc = acc + ",\"created_at\":".spec_bytes(); }
    write_datetime(out, &r.created_at);
    proof { lemma_assoc3(o, acc, datetime_json((*r).created_at)); acc = acc + datetime_json((*r).created_at); }
    put_lit(out, ",\"updated_at\":");
    proof { lemma_assoc3(o, acc, ",\"updated_at\":".spec_bytes()); acc = acc + ",\"updated_at\":".spec_bytes(); }
    write_datetime(out, &r.updated_at);
    proof { lemma_assoc3(o, acc, datetime_json((*r).updated_at)); acc = acc + datetime_json((*r).updated_at); }
    put_lit(out, ",\"closed_at\":");
    proof { lemma_assoc3(o, acc, ",\"closed_at\":".spec_bytes()); acc = acc + ",\"closed_at\":".spec_bytes(); }
    put_opt_datetime(out, &r.closed_at);
    proof { lemma_assoc3(o, acc, opt_datetime_json((*r).closed_at)); acc = acc + opt_datetime_json((*r).closed_at); }
    put_lit(out, ",\"due_on\":");
    proof { lemma_assoc3(o, acc, ",\"due_on\":".spec_bytes()); acc = acc + ",\"due_on\":".spec_bytes(); }
    put_opt_datetime(out, &r.due_on);
    proof { lemma_assoc3(o, acc, opt_datetime_json((*r).due_on)); acc = acc + opt_datetime_json((*r).due_on); }
    put_lit(out, ",\"state\":");
    proof { lemma_assoc3(o, acc, ",\"state\":".spec_bytes()); acc = acc + ",\"state\":".spec_bytes(); }
    put_enum(out, &enums.milestone_state, r.state);
    proof { lemma_assoc3(o, acc, enum_json((*enums).milestone_state, (*r).state)); acc = acc + enum_json((*enums).milestone_state, (*r).state); }
    out.push(0x7d);
    proof { lemma_assoc3(o, acc, seq![0x7du8]); acc = acc + seq![0x7du8]; }
}

/// An issue.
#[derive(Debug)]
pub struct Issue {
    pub id: i64,
    pub node_id: String,
    pub url: String,
    pub repository_url: String,
    pub labels_url: String,
    pub comments_url: String,
    pub events_url: String,
    pub html_url: String,
    pub number: i64,
    pub state: usize,
    pub state_reason: Option<usize>,
    pub title: String,
    pub body: Option<String>,
    pub user: Option<User>,
    pub labels: Vec<LabelItem>,
    pub assignee: Option<User>,
    pub assignees: Option<Vec<User>>,
    pub milestone: Option<Milestone>,
    pub locked: bool,
    pub active_lock_reason: Option<String>,
    pub comments: i64,
    pub closed_at: Option<DateTimeValue>,
    pub created_at: DateTimeValue,
    pub updated_at: DateTimeValue,
    pub closed_by: Option<User>,
    pub author_association: usize,
    pub draft: bool,
    pub body_html: Option<String>,
    pub body_text: Option<String>,
    pub timeline_url: Option<String>,
    pub reactions: Option<Reactions>,
}

/// The JSON text of a Issue.
pub open spec fn issue_json(r: Issue, enums: IssueEnums) -> Seq<u8> {
    "{\"id\":".spec_bytes()
        + decimal_text(r.id as int)
        + ",\"node_id\":".spec_bytes()
        + str_json(r.node_id@)
        + ",\"url\":".spec_bytes()
        + str_json(r.url@)
        + ",\"repository_url\":".spec_bytes()
        + str_json(r.repository_url@)
        + ",\"labels_url\":".spec_bytes()
        + str_json(r.labels_url@)
        + ",\"comments_url\":".spec_bytes()
        + str_json(r.comments_url@)
        + ",\"events_url\":".spec_bytes()
        + str_json(r.events_url@)
        + ",\"html_url\":".spec_bytes()
        + str_json(r.html_url@)
        + ",\"number\":".spec_bytes()
        + decimal_text(r.number as int)
        + ",\"state\":".spec_bytes()
        + enum_json(enums.issue_state, r.state)
        + ",\"state_reason\":".spec_bytes()
        + opt_enum_json(enums.state_reason, r.state_reason)
        + ",\"title\":".spec_bytes()
        + str_json(r.title@)
        + ",\"body\":".spec_bytes()
        + opt_str_json(r.body)
        + ",\"user\":".spec_bytes()
        + opt_user_json(r.user)
        + ",\"labels\":".spec_bytes()
        + labels_json(r.labels@)
        + ",\"assignee\":".spec_bytes()
        + opt_user_json(r.assignee)
        + ",\"assignees\":".spec_bytes()
        + opt_users_json(r.assignees)
        + ",\"milestone\":".spec_bytes()
        + opt_milestone_json(r.milestone, enums)
        + ",\"locked\":".spec_bytes()
        + bool_json(r.locked)
        + ",\"active_lock_reason\":".spec_bytes()
        + opt_str_json(r.active_lock_reason)
        + ",\"comments\":".spec_bytes()
        + decimal_text(r.comments as int)
        + ",\"closed_at\":".spec_bytes()
        + opt_datetime_json(r.closed_at)
        + ",\"created_at\":".spec_bytes()
        + datetime_json(r.created_at)
        + ",\"updated_at\":".spec_bytes()
        + datetime_json(r.updated_at)
        + ",\"closed_by\":".spec_bytes()
        + opt_user_json(r.closed_by)
        + ",\"author_association\":".spec_bytes()
        + enum_json(enums.author_association, r.author_association)
        + ",\"draft\":".spec_bytes()
        + bool_json(r.draft)
        + ",\"body_html\":".spec_bytes()
        + opt_str_json(r.body_html)
        + ",\"body_text\":".spec_bytes()
        + opt_str_json(r.body_text)
        + ",\"timeline_url\":".spec_bytes()
        + opt_str_json(r.timeline_url)
        + ",\"reactions\":".spec_bytes()
        + opt_reactions_json(r.reactions)
        + seq![0x7du8]
}

/// Appends the JSON text of a Issue.
#[verifier::spinoff_prover]
#[verifier::rlimit(80)]
pub fn dump_issue(out: &mut Vec<u8>, r: &Issue, enums: &IssueEnums)
    requires
        issue_enums_ok(*r, *enums),
    ensures
        final(out)@ == old(out)@ + issue_json(*r, *enums),
{
    let ghost o = out@;
    put_lit(out, "{\"id\":");
    let ghost mut acc = "{\"id\":".spec_bytes();
    put_int(out, r.id);
    proof { lemma_assoc3(o, acc, decimal_text((*r).id as int)); acc = acc + decimal_text((*r).id as int); }
    put_lit(out, ",\"node_id\":");
    proof { lemma_assoc3(o, acc, ",\"node_id\":".spec_bytes()); acc = acc + ",\"node_id\":".spec_bytes(); }
    put_str(out, &r.node_id);
    proof { lemma_assoc3(o, acc, str_json((*r).node_id@)); acc = acc + str_json((*r).node_id@); }
    put_lit(out, ",\"url\":");
    proof { lemma_assoc3(o, acc, ",\"url\":".spec_bytes()); acc = acc + ",\"url\":".spec_bytes(); }
    put_str(out, &r.url);
    proof { lemma_assoc3(o, acc, str_json((*r).url@)); acc = acc + str_json((*r).url@); }
    put_lit(out, ",\"repository_url\":");
    proof { lemma_assoc3(o, acc, ",\"repository_url\":".spec_bytes()); acc = acc + ",\"repository_url\":".spec_bytes(); }
    put_str(out, &r.repository_url);
    proof { lemma_assoc3(o, acc, str_json((*r).repository_url@)); acc = acc + str_json((*r).repository_url@); }
    put_lit(out, ",\"labels_url\":");
    proof { lemma_assoc3(o, acc, ",\"labels_url\":".spec_bytes()); acc = acc + ",\"labels_url\":".spec_bytes(); }
    put_str(out, &r.labels_url);
    proof { lemma_assoc3(o, acc, str_json((*r).labels_url@)); acc = acc + str_json((*r).labels_url@); }
    put_lit(out, ",\"comments_url\":");
    proof { lemma_assoc3(o, acc, ",\"comments_url\":".spec_bytes()); acc = acc + ",\"comments_url\":".spec_bytes(); }
    put_str(out, &r.comments_url);
    proof { lemma_assoc3(o, acc, str_json((*r).comments_url@)); acc = acc + str_json((*r).comments_url@); }
    put_lit(out, ",\"events_url\":");
    proof { lemma_assoc3(o, acc, ",\"events_url\":".spec_bytes()); acc = acc + ",\"events_url\":".spec_bytes(); }
    put_str(out, &r.events_url);
    proof { lemma_assoc3(o, acc, str_json((*r).events_url@)); acc = acc + str_json((*r).events_url@); }
    put_lit(out, ",\"html_url\":");
    proof { lemma_assoc3(o, acc, ",\"html_url\":".spec_bytes()); acc = acc + ",\"html_url\":".spec_bytes(); }
    put_str(out, &r.html_url);
    proof { lemma_assoc3(o, acc, str_json((*r).html_url@)); acc = acc + str_json((*r).html_url@); }
    put_lit(out, ",\"number\":");
    proof { lemma_assoc3(o, acc, ",\"number\":".spec_bytes()); acc = acc + ",\"number\":".spec_bytes(); }
    put_int(out, r.number);
    proof { lemma_assoc3(o, acc, decimal_text((*r).number as int)); acc = acc + decimal_text((*r).number as int); }
    put_lit(out, ",\"state\":");
    proof { lemma_assoc3(o, acc, ",\"state\":".spec_bytes()); acc = acc + ",\"state\":".spec_bytes(); }
    put_enum(out, &enums.issue_state, r.state);
    proof { lemma_assoc3(o, acc, enum_json((*enums).issue_state, (*r).state)); acc = acc + enum_json((*enums).issue_state, (*r).state); }
    put_lit(out, ",\"state_reason\":");
    proof { lemma_assoc3(o, acc, ",\"state_reason\":".spec_bytes()); acc = acc + ",\"state_reason\":".spec_bytes(); }
    put_opt_enum(out, &enums.state_reason, r.state_reason);
    proof { lemma_assoc3(o, acc, opt_enum_json((*enums).state_reason, (*r).state_reason)); acc = acc + opt_enum_json((*enums).state_reason, (*r).state_reason); }
    put_lit(out, ",\"title\":");
    proof { lemma_assoc3(o, acc, ",\"title\":".spec_bytes()); acc = acc + ",\"title\":".spec_bytes(); }
    put_str(out, &r.title);
    proof { lemma_assoc3(o, acc, str_json((*r).title@)); acc = acc + str_json((*r).title@); }
    put_lit(out, ",\"body\":");
    proof { lemma_assoc3(o, acc, ",\"body\":".spec_bytes()); acc = acc + ",\"body\":".spec_bytes(); }
    put_opt_str(out, &r.body);
    proof { lemma_assoc3(o, acc, opt_str_json((*r).body)); acc = acc + opt_str_json((*r).body); }
    put_lit(out, ",\"user\":");
    proof { lemma_assoc3(o, acc, ",\"user\":".spec_bytes()); acc = acc + ",\"user\":".spec_bytes(); }
    put_opt_user(out, &r.user);
    proof { lemma_assoc3(o, acc, opt_user_json((*r).user)); acc = acc + opt_user_json((*r).user); }
    put_lit(out, ",\"labels\":");
    proof { lemma_assoc3(o, acc, ",\"labels\":".spec_bytes()); acc = acc + ",\"labels\":".spec_bytes(); }
    dump_labels(out, &r.labels);
    proof { lemma_assoc3(o, acc, labels_json((*r).labels@)); acc = acc + labels_json((*r).labels@); }
    put_lit(out, ",\"assignee\":");
    proof { lemma_assoc3(o, acc, ",\"assignee\":".spec_bytes()); acc = acc + ",\"assignee\":".spec_bytes(); }
    put_opt_user(out, &r.assignee);
    proof { lemma_assoc3(o, acc, opt_user_json((*r).assignee)); acc = acc + opt_user_json((*r).assignee); }
    put_lit(out, ",\"assignees\":");
    proof { lemma_assoc3(o, acc, ",\"assignees\":".spec_bytes()); acc = acc + ",\"assignees\":".spec_bytes(); }
    put_opt_users(out, &r.assignees);
    proof { lemma_assoc3(o, acc, opt_users_json((*r).assignees)); acc = acc + opt_users_json((*r).assignees); }
    put_lit(out, ",\"milestone\":");
    proof { lemma_assoc3(o, acc, ",\"milestone\":".spec_bytes()); acc = acc + ",\"milestone\":".spec_bytes(); }
    put_opt_milestone(out, &r.milestone, enums);
    proof { lemma_assoc3(o, acc, opt_milestone_json((*r).milestone, *enums)); acc = acc + opt_milestone_json((*r).milestone, *enums); }
    put_lit(out, ",\"locked\":");
    proof { lemma_assoc3(o, acc, ",\"locked\":".spec_bytes()); acc = acc + ",\"locked\":".spec_bytes(); }
    put_bool(out, r.locked);
    proof { lemma_assoc3(o, acc, bool_json((*r).locked)); acc = acc + bool_json((*r).locked); }
    put_lit(out, ",\"active_lock_reason\":");
    proof { lemma_assoc3(o, acc, ",\"active_lock_reason\":".spec_bytes()); acc = acc + ",\"active_lock_reason\":".spec_bytes(); }
    put_opt_str(out, &r.active_lock_reason);
    proof { lemma_assoc3(o, acc, opt_str_json((*r).active_lock_reason)); acc = acc + opt_str_json((*r).active_lock_reason); }
    put_lit(out, ",\"comments\":");
    proof { lemma_assoc3(o, acc, ",\"comments\":".spec_bytes()); acc = acc + ",\"comments\":".spec_bytes(); }
    put_int(out, r.comments);
    proof { lemma_assoc3(o, acc, decimal_text((*r).comments as int)); acc = acc + decimal_text((*r).comments as int); }
    put_lit(out, ",\"closed_at\":");
    proof { lemma_assoc3(o, acc, ",\"closed_at\":".spec_bytes()); acc = acc + ",\"closed_at\":".spec_bytes(); }
    put_opt_datetime(out, &r.closed_at);
    proof { lemma_assoc3(o, acc, opt_datetime_json((*r).closed_at)); acc = acc + opt_datetime_json((*r).closed_at); }
    put_lit(out, ",\"created_at\":");
    proof { lemma_assoc3(o, acc, ",\"created_at\":".spec_bytes()); acc = acc + ",\"created_at\":".spec_bytes(); }
    write_datetime(out, &r.created_at);
    proof { lemma_assoc3(o, acc, datetime_json((*r).created_at)); acc = acc + datetime_json((*r).created_at); }
    put_lit(out, ",\"updated_at\":");
    proof { lemma_assoc3(o, acc, ",\"updated_at\":".spec_bytes()); acc = acc + ",\"updated_at\":".spec_bytes(); }
    write_datetime(out, &r.updated_at);
    proof { lemma_assoc3(o, acc, datetime_json((*r).updated_at)); acc = acc + datetime_json((*r).updated_at); }
    put_lit(out, ",\"closed_by\":");
    proof { lemma_assoc3(o, acc, ",\"closed_by\":".spec_bytes()); acc = acc + ",\"closed_by\":".spec_bytes(); }
    put_opt_user(out, &r.closed_by);
    proof { lemma_assoc3(o, acc, opt_user_json((*r).closed_by)); acc = acc + opt_user_json((*r).closed_by); }
    put_lit(out, ",\"author_association\":");
    proof { lemma_assoc3(o, acc, ",\"author_association\":".spec_bytes()); acc = acc + ",\"author_association\":".spec_bytes(); }
    put_enum(out, &enums.author_association, r.author_association);
    proof { lemma_assoc3(o, acc, enum_json((*enums).author_association, (*r).author_association)); acc = acc + enum_json((*enums).author_association, (*r).author_association); }
    put_lit(out, ",\"draft\":");
    proof { lemma_assoc3(o, acc, ",\"draft\":".spec_bytes()); acc = acc + ",\"draft\":".spec_bytes(); }
    put_bool(out, r.draft);
    proof { lemma_assoc3(o, acc, bool_json((*r).draft)); acc = acc + bool_json((*r).draft); }
    put_lit(out, ",\"body_html\":");
    proof { lemma_assoc3(o, acc, ",\"body_html\":".spec_bytes()); acc = acc + ",\"body_html\":".spec_bytes(); }
    put_opt_str(out, &r.body_html);
    proof { lemma_assoc3(o, acc, opt_str_json((*r).body_html)); acc = acc + opt_str_json((*r).body_html); }
    put_lit(out, ",\"body_text\":");
    proof { lemma_assoc3(o, acc, ",\"body_text\":".spec_bytes()); acc = acc + ",\"body_text\":".spec_bytes(); }
    put_opt_str(out, &r.body_text);
    proof { lemma_assoc3(o, acc, opt_str_json((*r).body_text)); acc = acc + opt_str_json((*r).body_text); }
    put_lit(out, ",\"timeline_url\":");
    proof { lemma_assoc3(o, acc, ",\"timeline_url\":".spec_bytes()); acc = acc + ",\"timeline_url\":".spec_bytes(); }
    put_opt_str(out, &r.timeline_url);
    proof { lemma_assoc3(o, acc, opt_str_json((*r).timeline_url)); acc = acc + opt_str_json((*r).timeline_url); }
    put_lit(out, ",\"reactions\":");
    proof { lemma_assoc3(o, acc, ",\"reactions\":".spec_bytes()); acc = acc + ",\"reactions\":".spec_bytes(); }
    put_opt_reactions(out, &r.reactions);
    proof { lemma_assoc3(o, acc, opt_reactions_json((*r).reactions)); acc = acc + opt_reactions_json((*r).reactions); }
    out.push(0x7d);
    proof { lemma_assoc3(o, acc, seq![0x7du8]); acc = acc + seq![0x7du8]; }
}

} // verus!
