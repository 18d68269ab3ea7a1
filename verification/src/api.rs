//! The REST endpoints of the family-tree server.
use vstd::prelude::*;
use vstd::string::*;
use crate::decimal::{decimal, lemma_parse_decimal, parse_u32_spec, u32_to_string};

verus! {

/// Where the server listens.
pub const SERVER_ADDRESS: &'static str = "http://127.0.0.1:5000";

/// `/person/{id}`: one person (GET, DELETE).
pub open spec fn person_path_spec(id: u32) -> Seq<char> {
    "/person/"@ + decimal(id as nat)
}

/// `/person/{id}/ancestors`: the ancestors of a person (GET).
pub open spec fn ancestors_path_spec(id: u32) -> Seq<char> {
    "/person/"@ + decimal(id as nat) + "/ancestors"@
}

/// `/person/{id}/nca/{id2}`: the nearest common ancestor of two people (GET).
pub open spec fn nca_path_spec(id: u32, id2: u32) -> Seq<char> {
    "/person/"@ + decimal(id as nat) + "/nca/"@ + decimal(id2 as nat)
}

/// `/person/{src}/{segment}/{tgt}`: the relation `segment` from `src` to
/// `tgt` (POST to create, DELETE to remove).
pub open spec fn relation_path_spec(src: u32, segment: Seq<char>, tgt: u32) -> Seq<char> {
    "/person/"@ + decimal(src as nat) + "/"@ + segment + "/"@ + decimal(tgt as nat)
}

/// `/person/{src}/child/{tgt}`: the parent-child link from `src` to `tgt`.
pub open spec fn child_link_path_spec(src: u32, tgt: u32) -> Seq<char> {
    relation_path_spec(src, "child"@, tgt)
}

/// `/person/{src}/cousin/{tgt}`: the cousin link from `src` to `tgt`.
pub open spec fn cousin_link_path_spec(src: u32, tgt: u32) -> Seq<char> {
    relation_path_spec(src, "cousin"@, tgt)
}

/// The path segment of the relation that an edge label names: a
/// `PARENT_OF` edge is a `child` link, a `COUSIN_OF` edge a `cousin` link;
/// any other label is its own segment.
pub open spec fn relation_segment_spec(label: Seq<char>) -> Seq<char> {
    if label == "PARENT_OF"@ {
        "child"@
    } else if label == "COUSIN_OF"@ {
        "cousin"@
    } else {
        label
    }
}

/// The path segment of the relation that `label` names.
pub fn relation_segment(label: &String) -> (r: String)
    ensures
        r@ == relation_segment_spec(label@),
{
    if *label == String::from_str("PARENT_OF") {
        String::from_str("child")
    } else if *label == String::from_str("COUSIN_OF") {
        String::from_str("cousin")
    } else {
        label.clone()
    }
}

/// `/person/{src}/{segment}/{tgt}`.
pub fn relation_path(src: u32, segment: &str, tgt: u32) -> (r: String)
    ensures
        r@ == relation_path_spec(src, segment@, tgt),
{
    let mut r = String::from_str("/person/");
    let a = u32_to_string(src);
    r.append(a.as_str());
    r.append("/");
    r.append(segment);
    r.append("/");
    let b = u32_to_string(tgt);
    r.append(b.as_str());
    r
}

/// `/person/{src}/cousin/{tgt}`.
pub fn cousin_link_path(src: u32, tgt: u32) -> (r: String)
    ensures
        r@ == cousin_link_path_spec(src, tgt),
{
    relation_path(src, "cousin", tgt)
}

/// `/people`: every person (GET).
pub fn people_path() -> (r: String)
    ensures
        r@ == "/people"@,
{
    String::from_str("/people")
}

/// `/relations`: every link (GET).
pub fn relations_path() -> (r: String)
    ensures
        r@ == "/relations"@,
{
    String::from_str("/relations")
}

/// `/person`: where a new person is posted.
pub fn new_person_path() -> (r: String)
    ensures
        r@ == "/person"@,
{
    String::from_str("/person")
}

/// `/person/{id}`.
pub fn person_path(id: u32) -> (r: String)
    ensures
        r@ == person_path_spec(id),
{
    let mut r = String::from_str("/person/");
    let digits = u32_to_string(id);
    r.append(digits.as_str());
    r
}

/// `/person/{src}/child/{tgt}`.
pub fn child_link_path(src: u32, tgt: u32) -> (r: String)
    ensures
        r@ == child_link_path_spec(src, tgt),
{
    relation_path(src, "child", tgt)
}

/// `/person/{id}/ancestors`.
pub fn ancestors_path(id: u32) -> (r: String)
    ensures
        r@ == ancestors_path_spec(id),
{
    let mut r = String::from_str("/person/");
    let a = u32_to_string(id);
    r.append(a.as_str());
    r.append("/ancestors");
    r
}

/// `/person/{id}/nca/{id2}`.
pub fn nca_path(id: u32, id2: u32) -> (r: String)
    ensures
        r@ == nca_path_spec(id, id2),
{
    let mut r = String::from_str("/person/");
    let a = u32_to_string(id);
    r.append(a.as_str());
    r.append("/nca/");
    let b = u32_to_string(id2);
    r.append(b.as_str());
    r
}

/// The full address of `path` on the server.
pub fn endpoint_url(path: &str) -> (r: String)
    ensures
        r@ == SERVER_ADDRESS@ + path@,
{
    let mut r = String::from_str(SERVER_ADDRESS);
    r.append(path);
    r
}

/// `p` is `/person/`, a text that reads back as `src`, `/`, `segment`, `/`,
/// and a text that reads back as `tgt`.
pub open spec fn names_relation(p: Seq<char>, src: u32, segment: Seq<char>, tgt: u32) -> bool {
    exists|a: Seq<char>, b: Seq<char>| #![trigger parse_u32_spec(a), parse_u32_spec(b)]
        p == "/person/"@ + a + "/"@ + segment + "/"@ + b
        && parse_u32_spec(a) == Some(src) && parse_u32_spec(b) == Some(tgt)
}

/// A relation path names its two people: its first id reads back as `src`
/// and its last as `tgt`.
pub proof fn law_relation_path_names_people(src: u32, segment: Seq<char>, tgt: u32)
    ensures
        names_relation(relation_path_spec(src, segment, tgt), src, segment, tgt),
{
    lemma_parse_decimal(src);
    lemma_parse_decimal(tgt);
    let a = decimal(src as nat);
    let b = decimal(tgt as nat);
    assert(parse_u32_spec(a) == Some(src) && parse_u32_spec(b) == Some(tgt));
    assert(relation_path_spec(src, segment, tgt) == "/person/"@ + a + "/"@ + segment + "/"@ + b);
}

/// The ancestors path asks for the person given: it is `/person/`, a text
/// that reads back as `id`, and `/ancestors`.
pub proof fn law_ancestors_path_names_person(id: u32)
    ensures
        exists|a: Seq<char>| #[trigger] parse_u32_spec(a) == Some(id)
            && ancestors_path_spec(id) == "/person/"@ + a + "/ancestors"@,
{
    lemma_parse_decimal(id);
    let a = decimal(id as nat);
    assert(parse_u32_spec(a) == Some(id));
}

/// The nearest-common-ancestor path asks for the two people given, in
/// order: `/person/`, a text that reads back as `id`, `/nca/`, and a text
/// that reads back as `id2`.
pub proof fn law_nca_path_names_people(id: u32, id2: u32)
    ensures
        exists|a: Seq<char>, b: Seq<char>| #![trigger parse_u32_spec(a), parse_u32_spec(b)]
            parse_u32_spec(a) == Some(id) && parse_u32_spec(b) == Some(id2)
            && nca_path_spec(id, id2) == "/person/"@ + a + "/nca/"@ + b,
{
    lemma_parse_decimal(id);
    lemma_parse_decimal(id2);
    let a = decimal(id as nat);
    let b = decimal(id2 as nat);
    assert(parse_u32_spec(a) == Some(id) && parse_u32_spec(b) == Some(id2));
}

/// The person path names the person given: `/person/` and a text that reads
/// back as `id`.
pub proof fn law_person_path_names_person(id: u32)
    ensures
        exists|a: Seq<char>| #[trigger] parse_u32_spec(a) == Some(id) && person_path_spec(id) == "/person/"@ + a,
{
    lemma_parse_decimal(id);
    let a = decimal(id as nat);
    assert(parse_u32_spec(a) == Some(id));
}

} // verus!
