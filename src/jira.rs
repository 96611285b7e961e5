use vstd::prelude::*;
use crate::merge::find_key;
use crate::value::{Json, JsonValue, entries_view, lemma_entries_view};

verus! {

broadcast use vstd::std_specs::vec::group_vec_axioms;

/// A created issue: its key and the API address of the issue.
#[derive(Debug, Clone, PartialEq, Eq)]
pub struct TicketInfo {
    pub key: String,
    pub url: String,
}

/// A project with its issue types, components and versions.
#[derive(Debug, Clone, PartialEq, Eq)]
pub struct JiraProject {
    pub id: String,
    pub key: String,
    pub name: String,
    pub issue_types: Vec<IssueType>,
    pub components: Vec<Component>,
    pub versions: Vec<Version>,
}

#[derive(Debug, Clone, PartialEq, Eq)]
pub struct IssueType {
    pub id: String,
    pub name: String,
    pub description: String,
    pub is_subtask: bool,
}

#[derive(Debug, Clone, PartialEq, Eq)]
pub struct Component {
    pub id: String,
    pub name: String,
}

#[derive(Debug, Clone, PartialEq, Eq)]
pub struct Version {
    pub id: String,
    pub name: String,
    pub released: bool,
}

#[derive(Debug, Clone, PartialEq, Eq)]
pub struct Epic {
    pub id: u64,
    pub key: String,
    pub name: String,
    pub summary: String,
    pub done: bool,
}

#[derive(Debug, Clone, PartialEq, Eq)]
pub struct Board {
    pub id: u64,
    pub name: String,
    pub board_type: String,
    pub project: Option<ProjectInfo>,
}

#[derive(Debug, Clone, PartialEq, Eq)]
pub struct ProjectInfo {
    pub project_key: String,
}

/// The schema of a field: its type, the type of its items, its custom kind.
#[derive(Debug, Clone, PartialEq, Eq)]
pub struct FieldType {
    pub schema_type: String,
    pub items: Option<String>,
    pub custom: Option<String>,
}

/// The API credentials.
#[derive(Debug, Clone, PartialEq, Eq)]
pub struct Credentials {
    pub api_token: String,
    pub email: String,
}

pub open spec fn digit_char(d: nat) -> char {
    if d == 0 {
        '0'
    } else if d == 1 {
        '1'
    } else if d == 2 {
        '2'
    } else if d == 3 {
        '3'
    } else if d == 4 {
        '4'
    } else if d == 5 {
        '5'
    } else if d == 6 {
        '6'
    } else if d == 7 {
        '7'
    } else if d == 8 {
        '8'
    } else {
        '9'
    }
}

/// The decimal digits of `n`, without leading zeros.
pub open spec fn decimal(n: nat) -> Seq<char>
    decreases n,
{
    if n < 10 {
        seq![digit_char(n)]
    } else {
        decimal(n / 10).push(digit_char(n % 10))
    }
}

fn digit_text(d: u64) -> (r: &'static str)
    requires
        d < 10,
    ensures
        r@ == seq![digit_char(d as nat)],
{
    proof {
        reveal_strlit("0");
        reveal_strlit("1");
        reveal_strlit("2");
        reveal_strlit("3");
        reveal_strlit("4");
        reveal_strlit("5");
        reveal_strlit("6");
        reveal_strlit("7");
        reveal_strlit("8");
        reveal_strlit("9");
    }
    let r = if d == 0 {
        "0"
    } else if d == 1 {
        "1"
    } else if d == 2 {
        "2"
    } else if d == 3 {
        "3"
    } else if d == 4 {
        "4"
    } else if d == 5 {
        "5"
    } else if d == 6 {
        "6"
    } else if d == 7 {
        "7"
    } else if d == 8 {
        "8"
    } else {
        "9"
    };
    assert(r@ =~= seq![digit_char(d as nat)]);
    r
}

/// Appends the decimal digits of `n` to `out`.
fn push_decimal(out: &mut String, n: u64)
    ensures
        final(out)@ == old(out)@ + decimal(n as nat),
    decreases n,
{
    let ghost start = out@;
    if n >= 10 {
        push_decimal(out, n / 10);
    }
    out.append(digit_text(n % 10));
    proof {
        if n >= 10 {
            assert(out@ =~= start + decimal(n as nat));
        } else {
            assert(out@ =~= start + decimal(n as nat));
        }
    }
}

/// The address for creating issues.
pub fn create_issue_url(base_url: &str) -> (r: String)
    ensures
        r@ == base_url@ + "/rest/api/3/issue"@,
{
    let mut r = String::from_str(base_url);
    r.append("/rest/api/3/issue");
    r
}

/// The address of an existing issue.
pub fn ticket_url(base_url: &str, ticket_key: &str) -> (r: String)
    ensures
        r@ == base_url@ + "/rest/api/3/issue/"@ + ticket_key@,
{
    let mut r = String::from_str(base_url);
    r.append("/rest/api/3/issue/");
    r.append(ticket_key);
    r
}

/// The address of a project.
pub fn project_url(base_url: &str, project_key: &str) -> (r: String)
    ensures
        r@ == base_url@ + "/rest/api/3/project/"@ + project_key@,
{
    let mut r = String::from_str(base_url);
    r.append("/rest/api/3/project/");
    r.append(project_key);
    r
}

/// The address of the epics of a board.
pub fn board_epics_url(base_url: &str, board_id: u64) -> (r: String)
    ensures
        r@ == base_url@ + "/rest/agile/1.0/board/"@ + decimal(board_id as nat) + "/epic"@,
{
    let mut r = String::from_str(base_url);
    r.append("/rest/agile/1.0/board/");
    push_decimal(&mut r, board_id);
    r.append("/epic");
    r
}

/// The address of the boards, filtered by project when a key is given.
pub fn boards_url(base_url: &str, project_key: Option<&str>) -> (r: String)
    ensures
        project_key is None ==> r@ == base_url@ + "/rest/agile/1.0/board"@,
        project_key matches Some(k) ==> r@ == base_url@ + "/rest/agile/1.0/board"@
            + "?projectKeyOrId="@ + k@,
{
    let mut r = String::from_str(base_url);
    r.append("/rest/agile/1.0/board");
    if let Some(k) = project_key {
        r.append("?projectKeyOrId=");
        r.append(k);
    }
    r
}

/// The address of the field metadata of a project, narrowed to one issue
/// type when one is given.
pub fn fields_url(base_url: &str, project_key: &str, issue_type_id: Option<&str>) -> (r: String)
    ensures
        ({
            let head = base_url@ + "/rest/api/2/issue/createmeta?projectKeys="@ + project_key@
                + "&expand=projects.issuetypes.fields"@;
            &&& issue_type_id is None ==> r@ == head
            &&& issue_type_id matches Some(t) ==> r@ == head + "&issuetypeIds="@ + t@
        }),
{
    let mut r = String::from_str(base_url);
    r.append("/rest/api/2/issue/createmeta?projectKeys=");
    r.append(project_key);
    r.append("&expand=projects.issuetypes.fields");
    if let Some(t) = issue_type_id {
        r.append("&issuetypeIds=");
        r.append(t);
    }
    r
}

/// The address at which a person views an issue.
pub fn browse_url(base_url: &str, ticket_key: &str) -> (r: String)
    ensures
        r@ == base_url@ + "/browse/"@ + ticket_key@,
{
    let mut r = String::from_str(base_url);
    r.append("/browse/");
    r.append(ticket_key);
    r
}

/// The entries of an issue's fields: the project and the summary, then
/// the additional fields, each of which replaces an entry of the same key.
pub open spec fn issue_fields(
    project_key: Seq<char>,
    title: Seq<char>,
    additional: Seq<(Seq<char>, Json)>,
) -> Seq<(Seq<char>, Json)>
    decreases additional.len(),
{
    if additional.len() == 0 {
        seq![
            ("project"@, Json::Object(seq![("key"@, Json::Str(project_key))])),
            ("summary"@, Json::Str(title)),
        ]
    } else {
        let init = issue_fields(project_key, title, additional.drop_last());
        let (k, v) = additional.last();
        let p = crate::merge::key_pos(init, k);
        if 0 <= p < init.len() {
            init.update(p, (k, v))
        } else {
            init.push((k, v))
        }
    }
}

/// The body that creates an issue: `{"fields": ...}` with the project, the
/// summary, and the entries of `additional` when it is an object.
pub fn create_issue_body(project_key: &str, title: &str, additional: &Option<JsonValue>) -> (r:
    JsonValue)
    ensures
        r@ == Json::Object(
            seq![
                (
                    "fields"@,
                    Json::Object(
                        issue_fields(
                            project_key@,
                            title@,
                            match additional {
                                Some(JsonValue::Object(es)) => entries_view(es@),
                                _ => Seq::empty(),
                            },
                        ),
                    ),
                ),
            ],
        ),
{
    let mut project: Vec<(String, JsonValue)> = Vec::new();
    project.push((String::from_str("key"), JsonValue::String(String::from_str(project_key))));
    let mut fields: Vec<(String, JsonValue)> = Vec::new();
    fields.push((String::from_str("project"), JsonValue::Object(project)));
    fields.push((String::from_str("summary"), JsonValue::String(String::from_str(title))));
    let ghost extra: Seq<(Seq<char>, Json)> = match additional {
        Some(JsonValue::Object(es)) => entries_view(es@),
        _ => Seq::empty(),
    };
    proof {
        lemma_entries_view(fields@);
        lemma_entries_view(project@);
        assert(entries_view(project@) =~= seq![("key"@, Json::Str(project_key@))]);
        assert(entries_view(fields@) =~= issue_fields(project_key@, title@, extra.take(0)));
    }
    if let Some(JsonValue::Object(es)) = additional {
        proof {
            lemma_entries_view(es@);
        }
        let mut i: usize = 0;
        while i < es.len()
            invariant
                i <= es.len(),
                extra == entries_view(es@),
                extra.len() == es.len(),
                forall|t: int| 0 <= t < es.len() ==> #[trigger] extra[t] == (es@[t].0@, es@[t].1@),
                entries_view(fields@) == issue_fields(project_key@, title@, extra.take(i as int)),
            decreases es.len() - i,
        {
            let ghost before = fields@;
            proof {
                lemma_entries_view(before);
                assert(extra.take(i + 1).drop_last() =~= extra.take(i as int));
                assert(extra.take(i + 1).last() == extra[i as int]);
                crate::merge::lemma_key_pos(entries_view(before), es@[i as int].0@);
            }
            let value = es[i].1.deep_copy();
            match find_key(&fields, &es[i].0) {
                Some(j) => {
                    fields[j] = (es[i].0.clone(), value);
                },
                None => {
                    fields.push((es[i].0.clone(), value));
                },
            }
            proof {
                lemma_entries_view(fields@);
                let ev = entries_view(before);
                let p = crate::merge::key_pos(ev, es@[i as int].0@);
                if 0 <= p < ev.len() {
                    assert(entries_view(fields@) =~= ev.update(p, (es@[i as int].0@, es@[i as int].1@)));
                } else {
                    assert(entries_view(fields@) =~= ev.push((es@[i as int].0@, es@[i as int].1@)));
                }
            }
            i = i + 1;
        }
        proof {
            assert(extra.take(es.len() as int) =~= extra);
        }
    } else {
        proof {
            assert(extra.take(0) =~= extra);
        }
    }
    let mut body: Vec<(String, JsonValue)> = Vec::new();
    body.push((String::from_str("fields"), JsonValue::Object(fields)));
    proof {
        lemma_entries_view(body@);
        assert(entries_view(body@) =~= seq![
            ("fields"@, Json::Object(issue_fields(project_key@, title@, extra))),
        ]);
    }
    JsonValue::Object(body)
}

} // verus!
