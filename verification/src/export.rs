//! Writing the whole network out: as a markdown registry, or as one JSON
//! document.
use vstd::prelude::*;
use crate::json::{lemma_array_jv, lemma_object_jv, JsonValue, JsonView};
use crate::network::justs_for;
use crate::text::{contains_str, decimal, decimal_seq, join, join_seq, owned};
use crate::types::{views, Justification, Nogood, Node};

verus! {

/// The antecedents of the justifications, in order.
pub open spec fn ants_of(js: Seq<Justification>) -> Seq<Seq<char>>
    decreases js.len(),
{
    if js.len() == 0 {
        Seq::empty()
    } else {
        ants_of(js.drop_last()) + views(js.last().antecedents@)
    }
}

/// The out-lists of the justifications, in order.
pub open spec fn outs_of(js: Seq<Justification>) -> Seq<Seq<char>>
    decreases js.len(),
{
    if js.len() == 0 {
        Seq::empty()
    } else {
        outs_of(js.drop_last()) + views(js.last().outlist@)
    }
}

/// The first occurrence of each item, in order.
pub open spec fn dedup(s: Seq<Seq<char>>) -> Seq<Seq<char>>
    decreases s.len(),
{
    if s.len() == 0 {
        Seq::empty()
    } else {
        let r = dedup(s.drop_last());
        if r.contains(s.last()) {
            r
        } else {
            r.push(s.last())
        }
    }
}

/// `label value\n` when the value is not empty.
pub open spec fn md_field(label: Seq<char>, value: Seq<char>) -> Seq<char> {
    if value.len() > 0 {
        label + value + "\n"@
    } else {
        Seq::empty()
    }
}

/// `label a, b, c\n` when there are items.
pub open spec fn md_list(label: Seq<char>, items: Seq<Seq<char>>) -> Seq<char> {
    if items.len() > 0 {
        label + join_seq(items, ", "@) + "\n"@
    } else {
        Seq::empty()
    }
}

/// The status a node is written with: IN, OUT, or STALE for an OUT node
/// whose metadata gives a stale or retraction reason.
pub open spec fn md_status(n: Node) -> Seq<char> {
    if n.truth_value@ == "OUT"@ {
        if n.metadata.spec_get("stale_reason"@) is Some || n.metadata.spec_get("retract_reason"@) is Some {
            "STALE"@
        } else {
            "OUT"@
        }
    } else {
        "IN"@
    }
}

/// The kind written for a node: its `beliefs_type` metadata string, else
/// DERIVED when it has justifications and OBSERVATION when it has none.
pub open spec fn md_kind(n: Node, js: Seq<Justification>) -> Seq<char> {
    match n.metadata.str_at("beliefs_type"@) {
        Some(s) => s,
        None => if js.len() > 0 {
            "DERIVED"@
        } else {
            "OBSERVATION"@
        },
    }
}

/// The section of one node, given its justifications.
pub open spec fn node_section(n: Node, js: Seq<Justification>) -> Seq<char> {
    "### "@ + n.id@ + " ["@ + md_status(n) + "] "@ + md_kind(n, js) + "\n"@ + n.text@ + "\n\n"@
        + md_field("- Source: "@, n.source@) + md_field("- Source URL: "@, n.source_url@) + md_list(
        "- Depends on: "@,
        dedup(ants_of(js)),
    ) + md_list("- Unless: "@, dedup(outs_of(js))) + "\n"@
}

/// The sections of the nodes, in order.
pub open spec fn node_sections(ns: Seq<Node>, all: Seq<Justification>) -> Seq<char>
    decreases ns.len(),
{
    if ns.len() == 0 {
        Seq::empty()
    } else {
        node_sections(ns.drop_last(), all) + node_section(ns.last(), justs_for(all, ns.last().id@))
    }
}

/// One `- name: path` line per repository.
pub open spec fn repo_lines(rs: Seq<(String, String)>) -> Seq<char>
    decreases rs.len(),
{
    if rs.len() == 0 {
        Seq::empty()
    } else {
        repo_lines(rs.drop_last()) + "- "@ + rs.last().0@ + ": "@ + rs.last().1@ + "\n"@
    }
}

/// The section of one recorded contradiction.
pub open spec fn nogood_section(ng: Nogood) -> Seq<char> {
    "### "@ + ng.id@ + "\n"@ + md_field("- Discovered: "@, ng.discovered@) + md_field(
        "- Resolution: "@,
        ng.resolution@,
    ) + "- Affects: "@ + join_seq(views(ng.nodes@), ", "@) + "\n"@ + "\n"@
}

pub open spec fn nogood_sections(ngs: Seq<Nogood>) -> Seq<char>
    decreases ngs.len(),
{
    if ngs.len() == 0 {
        Seq::empty()
    } else {
        nogood_sections(ngs.drop_last()) + nogood_section(ngs.last())
    }
}

/// The front matter and headings before the first node.
pub open spec fn md_header(project: Seq<char>, updated: Seq<char>, count: nat, version: Seq<char>) -> Seq<char> {
    "---\n"@ + "schema_version: \"1.0\"\n"@ + "project_name: \""@ + project + "\"\n"@ + "updated_at: \""@
        + updated + "\"\n"@ + "node_count: "@ + decimal_seq(count) + "\n"@ + "generator: \"reasons/"@
        + version + "\"\n"@ + "---\n\n"@ + "# Belief Registry\n\n"@ + "## Claims\n\n"@
}

/// The whole markdown registry.
pub open spec fn markdown_doc(
    project: Seq<char>,
    updated: Seq<char>,
    version: Seq<char>,
    nodes: Seq<Node>,
    justs: Seq<Justification>,
    nogoods: Seq<Nogood>,
    repos: Seq<(String, String)>,
) -> Seq<char> {
    md_header(project, updated, nodes.len(), version) + node_sections(nodes, justs) + (if repos.len() > 0 {
        "## Repos\n\n"@ + repo_lines(repos) + "\n"@
    } else {
        Seq::empty()
    }) + (if nogoods.len() > 0 {
        "## Nogoods\n\n"@ + nogood_sections(nogoods)
    } else {
        Seq::empty()
    })
}

fn append_field(out: &mut String, label: &str, value: &String)
    ensures
        final(out)@ == old(out)@ + md_field(label@, value@),
{
    if !value.as_str().is_empty() {
        out.append(label);
        out.append(value.as_str());
        out.append("\n");
    } else {
        assert(old(out)@ + md_field(label@, value@) =~= old(out)@);
    }
}

fn append_list(out: &mut String, label: &str, items: &Vec<String>)
    ensures
        final(out)@ == old(out)@ + md_list(label@, views(items@)),
{
    if items.len() > 0 {
        out.append(label);
        let j = join(items, ", ");
        out.append(j.as_str());
        out.append("\n");
    } else {
        assert(old(out)@ + md_list(label@, views(items@)) =~= old(out)@);
    }
}

/// Add the items of `xs` not yet in `seen`, in order.
pub fn add_unseen(seen: &mut Vec<String>, xs: &Vec<String>)
    ensures
        forall|base: Seq<Seq<char>>| views(old(seen)@) == #[trigger] dedup(base) ==> views(final(seen)@) == dedup(
            base + views(xs@),
        ),
{
    let ghost s0 = views(seen@);
    let mut i: usize = 0;
    while i < xs.len()
        invariant
            i <= xs@.len(),
            forall|base: Seq<Seq<char>>| s0 == #[trigger] dedup(base) ==> views(seen@) == dedup(
                base + views(xs@).take(i as int),
            ),
        decreases xs@.len() - i,
    {
        let x = &xs[i];
        let present = contains_str(seen, x.as_str());
        let ghost before = views(seen@);
        if !present {
            seen.push(x.clone());
            assert(views(seen@) =~= before.push(x@));
        }
        assert forall|base: Seq<Seq<char>>| s0 == #[trigger] dedup(base) implies views(seen@) == dedup(
            base + views(xs@).take(i + 1),
        ) by {
            let t = base + views(xs@).take(i + 1);
            assert(t.drop_last() =~= base + views(xs@).take(i as int));
            assert(t.last() == x@);
        }
        i = i + 1;
    }
    assert forall|base: Seq<Seq<char>>| s0 == #[trigger] dedup(base) implies views(seen@) == dedup(base + views(xs@)) by {
        assert(views(xs@).take(xs@.len() as int) =~= views(xs@));
    }
}

/// The section of one node.
fn node_section_text(n: &Node, all: &Vec<Justification>) -> (r: String)
    ensures
        r@ == node_section(*n, justs_for(all@, n.id@)),
{
    let mut justified = false;
    let mut deps: Vec<String> = Vec::new();
    let mut outs: Vec<String> = Vec::new();
    let mut k: usize = 0;
    assert(views(deps@) =~= dedup(ants_of(justs_for(all@.take(0), n.id@))));
    assert(views(outs@) =~= dedup(outs_of(justs_for(all@.take(0), n.id@))));
    while k < all.len()
        invariant
            k <= all@.len(),
            justified == (justs_for(all@.take(k as int), n.id@).len() > 0),
            views(deps@) == dedup(ants_of(justs_for(all@.take(k as int), n.id@))),
            views(outs@) == dedup(outs_of(justs_for(all@.take(k as int), n.id@))),
        decreases all@.len() - k,
    {
        let j = &all[k];
        assert(all@.take(k + 1).drop_last() =~= all@.take(k as int));
        assert(all@.take(k + 1).last() == *j);
        if j.node_id == n.id {
            let ghost js = justs_for(all@.take(k as int), n.id@);
            assert(justs_for(all@.take(k + 1), n.id@) == js.push(*j));
            assert(js.push(*j).drop_last() =~= js);
            add_unseen(&mut deps, &j.antecedents);
            add_unseen(&mut outs, &j.outlist);
            justified = true;
        }
        k = k + 1;
    }
    assert(all@.take(all@.len() as int) =~= all@);
    let mut out = owned("### ");
    out.append(n.id.as_str());
    out.append(" [");
    let out_now = crate::text::str_eq(n.truth_value.as_str(), "OUT");
    let status: &str = if out_now {
        if n.metadata.get("stale_reason").is_some() || n.metadata.get("retract_reason").is_some() {
            "STALE"
        } else {
            "OUT"
        }
    } else {
        "IN"
    };
    out.append(status);
    out.append("] ");
    let kind: &str = match n.metadata.get_str("beliefs_type") {
        Some(s) => s.as_str(),
        None => if justified {
            "DERIVED"
        } else {
            "OBSERVATION"
        },
    };
    out.append(kind);
    out.append("\n");
    out.append(n.text.as_str());
    out.append("\n\n");
    append_field(&mut out, "- Source: ", &n.source);
    append_field(&mut out, "- Source URL: ", &n.source_url);
    append_list(&mut out, "- Depends on: ", &deps);
    append_list(&mut out, "- Unless: ", &outs);
    out.append("\n");
    out
}

fn nogood_section_text(ng: &Nogood) -> (r: String)
    ensures
        r@ == nogood_section(*ng),
{
    let mut out = owned("### ");
    out.append(ng.id.as_str());
    out.append("\n");
    append_field(&mut out, "- Discovered: ", &ng.discovered);
    append_field(&mut out, "- Resolution: ", &ng.resolution);
    out.append("- Affects: ");
    let j = join(&ng.nodes, ", ");
    out.append(j.as_str());
    out.append("\n");
    out.append("\n");
    out
}

/// The network as a markdown registry: front matter, one section per
/// node, then the repositories and recorded contradictions when there are
/// any.
pub fn render_markdown(
    project_name: &str,
    updated_at: &str,
    version: &str,
    nodes: &Vec<Node>,
    justs: &Vec<Justification>,
    nogoods: &Vec<Nogood>,
    repos: &Vec<(String, String)>,
) -> (r: String)
    ensures
        r@ == markdown_doc(project_name@, updated_at@, version@, nodes@, justs@, nogoods@, repos@),
{
    let mut out = owned("---\n");
    out.append("schema_version: \"1.0\"\n");
    out.append("project_name: \"");
    out.append(project_name);
    out.append("\"\n");
    out.append("updated_at: \"");
    out.append(updated_at);
    out.append("\"\n");
    out.append("node_count: ");
    let c = decimal(nodes.len() as u64);
    out.append(c.as_str());
    out.append("\n");
    out.append("generator: \"reasons/");
    out.append(version);
    out.append("\"\n");
    out.append("---\n\n");
    out.append("# Belief Registry\n\n");
    out.append("## Claims\n\n");
    let ghost head = out@;
    assert(head == md_header(project_name@, updated_at@, nodes@.len(), version@));
    let mut k: usize = 0;
    assert(head + node_sections(nodes@.take(0), justs@) =~= head);
    while k < nodes.len()
        invariant
            k <= nodes@.len(),
            out@ == head + node_sections(nodes@.take(k as int), justs@),
        decreases nodes@.len() - k,
    {
        let sec = node_section_text(&nodes[k], justs);
        let ghost prev = node_sections(nodes@.take(k as int), justs@);
        out.append(sec.as_str());
        assert(nodes@.take(k + 1).drop_last() =~= nodes@.take(k as int));
        assert(nodes@.take(k + 1).last() == nodes@[k as int]);
        assert(out@ =~= head + (prev + sec@));
        k = k + 1;
    }
    assert(nodes@.take(nodes@.len() as int) =~= nodes@);
    let ghost body = out@;
    if repos.len() > 0 {
        out.append("## Repos\n\n");
        let ghost mid = out@;
        let mut i: usize = 0;
        assert(mid + repo_lines(repos@.take(0)) =~= mid);
        while i < repos.len()
            invariant
                i <= repos@.len(),
                out@ == mid + repo_lines(repos@.take(i as int)),
            decreases repos@.len() - i,
        {
            let ghost prev = out@;
            out.append("- ");
            out.append(repos[i].0.as_str());
            out.append(": ");
            out.append(repos[i].1.as_str());
            out.append("\n");
            assert(repos@.take(i + 1).drop_last() =~= repos@.take(i as int));
            assert(repos@.take(i + 1).last() == repos@[i as int]);
            assert(out@ =~= mid + repo_lines(repos@.take(i + 1)));
            i = i + 1;
        }
        assert(repos@.take(repos@.len() as int) =~= repos@);
        out.append("\n");
        assert(out@ =~= body + ("## Repos\n\n"@ + repo_lines(repos@) + "\n"@));
    } else {
        assert(out@ =~= body + Seq::<char>::empty());
    }
    let ghost body2 = out@;
    if nogoods.len() > 0 {
        out.append("## Nogoods\n\n");
        let ghost mid = out@;
        let mut i: usize = 0;
        assert(mid + nogood_sections(nogoods@.take(0)) =~= mid);
        while i < nogoods.len()
            invariant
                i <= nogoods@.len(),
                out@ == mid + nogood_sections(nogoods@.take(i as int)),
            decreases nogoods@.len() - i,
        {
            let sec = nogood_section_text(&nogoods[i]);
            let ghost prev = nogood_sections(nogoods@.take(i as int));
            out.append(sec.as_str());
            assert(nogoods@.take(i + 1).drop_last() =~= nogoods@.take(i as int));
            assert(nogoods@.take(i + 1).last() == nogoods@[i as int]);
            assert(out@ =~= mid + (prev + sec@));
            i = i + 1;
        }
        assert(nogoods@.take(nogoods@.len() as int) =~= nogoods@);
        assert(out@ =~= body2 + ("## Nogoods\n\n"@ + nogood_sections(nogoods@)));
    } else {
        assert(out@ =~= body2 + Seq::<char>::empty());
    }
    out
}

} // verus!

verus! {

/// A list of strings as a JSON array of strings.
pub open spec fn jstrs(v: Seq<String>) -> JsonView {
    JsonView::Array(v.map_values(|s: String| JsonView::Str(s@)))
}

/// A justification as exported: type, antecedents, out-list and label.
pub open spec fn just_json(j: Justification) -> JsonView {
    JsonView::Object(
        seq![
            ("type"@, JsonView::Str(j.jtype@)),
            ("antecedents"@, jstrs(j.antecedents@)),
            ("outlist"@, jstrs(j.outlist@)),
            ("label"@, JsonView::Str(j.label@)),
        ],
    )
}

/// The metadata entries whose keys do not start with `_`, in order.
pub open spec fn public_entries(es: Seq<(String, JsonValue)>) -> Seq<(Seq<char>, JsonView)>
    decreases es.len(),
{
    if es.len() == 0 {
        Seq::empty()
    } else {
        let r = public_entries(es.drop_last());
        let e = es.last();
        if e.0@.len() > 0 && e.0@[0] == '_' {
            r
        } else {
            r.push((e.0@, e.1.jv()))
        }
    }
}

/// Exported metadata: the public entries of an object, else an empty object.
pub open spec fn public_meta(m: JsonValue) -> JsonView {
    match m {
        JsonValue::Object(es) => JsonView::Object(public_entries(es@)),
        _ => JsonView::Object(Seq::empty()),
    }
}

/// A node as exported, with its justifications.
pub open spec fn node_json(n: Node, js: Seq<Justification>) -> JsonView {
    JsonView::Object(
        seq![
            ("text"@, JsonView::Str(n.text@)),
            ("truth_value"@, JsonView::Str(n.truth_value@)),
            ("justifications"@, JsonView::Array(js.map_values(|j: Justification| just_json(j)))),
            ("source"@, JsonView::Str(n.source@)),
            ("source_url"@, JsonView::Str(n.source_url@)),
            ("source_hash"@, JsonView::Str(n.source_hash@)),
            ("date"@, JsonView::Str(n.date@)),
            ("metadata"@, public_meta(n.metadata)),
            ("created_at"@, JsonView::Str(n.created_at@)),
            ("updated_at"@, JsonView::Str(n.updated_at@)),
            ("reviewed_at"@, JsonView::Str(n.reviewed_at@)),
            ("verified_at"@, JsonView::Str(n.verified_at@)),
            ("retracted_at"@, JsonView::Str(n.retracted_at@)),
        ],
    )
}

/// A recorded contradiction as exported.
pub open spec fn nogood_json(g: Nogood) -> JsonView {
    JsonView::Object(
        seq![
            ("id"@, JsonView::Str(g.id@)),
            ("nodes"@, jstrs(g.nodes@)),
            ("discovered"@, JsonView::Str(g.discovered@)),
            ("resolution"@, JsonView::Str(g.resolution@)),
        ],
    )
}

/// The settings written under `meta`.
pub struct ExportMeta {
    pub schema_version: String,
    pub project_name: String,
    pub created_at: String,
    pub updated_at: String,
    pub version: String,
}

/// The schema version to export: the stored one, else `1.0`.
pub fn schema_version_or_default(stored: Option<String>) -> (r: String)
    ensures
        r@ == match stored {
            Some(s) => s@,
            None => "1.0"@,
        },
{
    match stored {
        Some(s) => s,
        None => crate::text::owned("1.0"),
    }
}

/// A stored setting, or empty text when none is stored.
pub fn stored_or_empty(stored: Option<String>) -> (r: String)
    ensures
        r@ == match stored {
            Some(s) => s@,
            None => Seq::<char>::empty(),
        },
{
    match stored {
        Some(s) => s,
        None => String::new(),
    }
}

impl ExportMeta {
    /// The settings to export from the stored ones: the schema version
    /// defaults to `1.0`, the project name and the times to empty text;
    /// `version` is the program's version.
    pub fn from_stored(
        schema_version: Option<String>,
        project_name: Option<String>,
        created_at: Option<String>,
        updated_at: Option<String>,
        version: String,
    ) -> (m: ExportMeta)
        ensures
            m.schema_version@ == match schema_version {
                Some(s) => s@,
                None => "1.0"@,
            },
            m.project_name@ == match project_name {
                Some(s) => s@,
                None => Seq::<char>::empty(),
            },
            m.created_at@ == match created_at {
                Some(s) => s@,
                None => Seq::<char>::empty(),
            },
            m.updated_at@ == match updated_at {
                Some(s) => s@,
                None => Seq::<char>::empty(),
            },
            m.version == version,
    {
        ExportMeta {
            schema_version: schema_version_or_default(schema_version),
            project_name: stored_or_empty(project_name),
            created_at: stored_or_empty(created_at),
            updated_at: stored_or_empty(updated_at),
            version,
        }
    }
}

/// The whole network as one JSON document.
pub open spec fn export_json(
    meta: ExportMeta,
    nodes: Seq<Node>,
    justs: Seq<Justification>,
    nogoods: Seq<Nogood>,
    repos: Seq<(String, String)>,
) -> JsonView {
    JsonView::Object(
        seq![
            (
                "meta"@,
                JsonView::Object(
                    seq![
                        ("schema_version"@, JsonView::Str(meta.schema_version@)),
                        ("project_name"@, JsonView::Str(meta.project_name@)),
                        ("created_at"@, JsonView::Str(meta.created_at@)),
                        ("updated_at"@, JsonView::Str(meta.updated_at@)),
                        ("node_count"@, JsonView::Number(decimal_seq(nodes.len()))),
                        ("generator"@, JsonView::Str("reasons/"@ + meta.version@)),
                    ],
                ),
            ),
            ("nodes"@, JsonView::Object(nodes.map_values(|n: Node| (n.id@, node_json(n, justs_for(justs, n.id@)))))),
            ("nogoods"@, JsonView::Array(nogoods.map_values(|g: Nogood| nogood_json(g)))),
            ("repos"@, JsonView::Object(repos.map_values(|r: (String, String)| (r.0@, JsonView::Str(r.1@))))),
        ],
    )
}

fn jstr(s: &str) -> (r: JsonValue)
    ensures
        r.jv() == JsonView::Str(s@),
{
    JsonValue::Str(owned(s))
}

fn jstr_list(v: &Vec<String>) -> (r: JsonValue)
    ensures
        r.jv() == jstrs(v@),
{
    let mut items: Vec<JsonValue> = Vec::new();
    let mut k: usize = 0;
    while k < v.len()
        invariant
            k <= v@.len(),
            items@.len() == k,
            forall|i: int| 0 <= i < k ==> (#[trigger] items@[i]).jv() == JsonView::Str(v@[i]@),
        decreases v@.len() - k,
    {
        items.push(jstr(v[k].as_str()));
        k = k + 1;
    }
    proof {
        lemma_array_jv(items, v@.map_values(|s: String| JsonView::Str(s@)));
    }
    JsonValue::Array(items)
}

fn just_value(j: &Justification) -> (r: JsonValue)
    ensures
        r.jv() == just_json(*j),
{
    let mut es: Vec<(String, JsonValue)> = Vec::new();
    es.push((owned("type"), jstr(j.jtype.as_str())));
    es.push((owned("antecedents"), jstr_list(&j.antecedents)));
    es.push((owned("outlist"), jstr_list(&j.outlist)));
    es.push((owned("label"), jstr(j.label.as_str())));
    proof {
        if let JsonView::Object(t) = just_json(*j) {
            lemma_object_jv(es, t);
        }
    }
    JsonValue::Object(es)
}

fn public_meta_value(m: &JsonValue) -> (r: JsonValue)
    ensures
        r.jv() == public_meta(*m),
{
    let mut out: Vec<(String, JsonValue)> = Vec::new();
    match m {
        JsonValue::Object(es) => {
            let mut k: usize = 0;
            while k < es.len()
                invariant
                    k <= es@.len(),
                    *m == JsonValue::Object(*es),
                    out@.len() == public_entries(es@.take(k as int)).len(),
                    forall|i: int|
                        0 <= i < out@.len() ==> (#[trigger] out@[i]).0@ == public_entries(es@.take(k as int))[i].0
                            && out@[i].1.jv() == public_entries(es@.take(k as int))[i].1,
                decreases es@.len() - k,
            {
                let key = &es[k].0;
                assert(es@.take(k + 1).drop_last() =~= es@.take(k as int));
                assert(es@.take(k + 1).last() == es@[k as int]);
                let kc = crate::text::chars_of(key.as_str());
                let hidden = kc.len() > 0 && kc[0] == '_';
                if !hidden {
                    let v = es[k].1.clone_value();
                    out.push((key.clone(), v));
                }
                k = k + 1;
            }
            assert(es@.take(es@.len() as int) =~= es@);
            proof {
                lemma_object_jv(out, public_entries(es@));
            }
        },
        _ => {
            proof {
                lemma_object_jv(out, Seq::empty());
            }
        },
    }
    JsonValue::Object(out)
}

} // verus!

verus! {

fn node_value(n: &Node, all: &Vec<Justification>) -> (r: JsonValue)
    ensures
        r.jv() == node_json(*n, justs_for(all@, n.id@)),
{
    let mut js: Vec<JsonValue> = Vec::new();
    let ghost mine: Seq<Justification> = Seq::empty();
    let mut k: usize = 0;
    while k < all.len()
        invariant
            k <= all@.len(),
            mine == justs_for(all@.take(k as int), n.id@),
            js@.len() == mine.len(),
            forall|i: int| 0 <= i < js@.len() ==> (#[trigger] js@[i]).jv() == just_json(mine[i]),
        decreases all@.len() - k,
    {
        assert(all@.take(k + 1).drop_last() =~= all@.take(k as int));
        assert(all@.take(k + 1).last() == all@[k as int]);
        if all[k].node_id == n.id {
            js.push(just_value(&all[k]));
            proof {
                mine = mine.push(all@[k as int]);
            }
        }
        k = k + 1;
    }
    assert(all@.take(all@.len() as int) =~= all@);
    proof {
        lemma_array_jv(js, mine.map_values(|j: Justification| just_json(j)));
    }
    let mut es: Vec<(String, JsonValue)> = Vec::new();
    es.push((owned("text"), jstr(n.text.as_str())));
    es.push((owned("truth_value"), jstr(n.truth_value.as_str())));
    es.push((owned("justifications"), JsonValue::Array(js)));
    es.push((owned("source"), jstr(n.source.as_str())));
    es.push((owned("source_url"), jstr(n.source_url.as_str())));
    es.push((owned("source_hash"), jstr(n.source_hash.as_str())));
    es.push((owned("date"), jstr(n.date.as_str())));
    es.push((owned("metadata"), public_meta_value(&n.metadata)));
    es.push((owned("created_at"), jstr(n.created_at.as_str())));
    es.push((owned("updated_at"), jstr(n.updated_at.as_str())));
    es.push((owned("reviewed_at"), jstr(n.reviewed_at.as_str())));
    es.push((owned("verified_at"), jstr(n.verified_at.as_str())));
    es.push((owned("retracted_at"), jstr(n.retracted_at.as_str())));
    proof {
        if let JsonView::Object(t) = node_json(*n, justs_for(all@, n.id@)) {
            lemma_object_jv(es, t);
        }
    }
    JsonValue::Object(es)
}

fn nogood_value(g: &Nogood) -> (r: JsonValue)
    ensures
        r.jv() == nogood_json(*g),
{
    let mut es: Vec<(String, JsonValue)> = Vec::new();
    es.push((owned("id"), jstr(g.id.as_str())));
    es.push((owned("nodes"), jstr_list(&g.nodes)));
    es.push((owned("discovered"), jstr(g.discovered.as_str())));
    es.push((owned("resolution"), jstr(g.resolution.as_str())));
    proof {
        if let JsonView::Object(t) = nogood_json(*g) {
            lemma_object_jv(es, t);
        }
    }
    JsonValue::Object(es)
}

/// The network as one JSON document: settings under `meta`, the nodes
/// (with their justifications and public metadata) keyed by id, the
/// recorded contradictions, and the repositories.
pub fn export_document(
    meta: &ExportMeta,
    nodes: &Vec<Node>,
    justs: &Vec<Justification>,
    nogoods: &Vec<Nogood>,
    repos: &Vec<(String, String)>,
) -> (r: JsonValue)
    ensures
        r.jv() == export_json(*meta, nodes@, justs@, nogoods@, repos@),
{
    let mut me: Vec<(String, JsonValue)> = Vec::new();
    me.push((owned("schema_version"), jstr(meta.schema_version.as_str())));
    me.push((owned("project_name"), jstr(meta.project_name.as_str())));
    me.push((owned("created_at"), jstr(meta.created_at.as_str())));
    me.push((owned("updated_at"), jstr(meta.updated_at.as_str())));
    me.push((owned("node_count"), JsonValue::Number(decimal(nodes.len() as u64))));
    let mut generator = owned("reasons/");
    generator.append(meta.version.as_str());
    me.push((owned("generator"), JsonValue::Str(generator)));
    let ghost meta_view = JsonView::Object(
        seq![
            ("schema_version"@, JsonView::Str(meta.schema_version@)),
            ("project_name"@, JsonView::Str(meta.project_name@)),
            ("created_at"@, JsonView::Str(meta.created_at@)),
            ("updated_at"@, JsonView::Str(meta.updated_at@)),
            ("node_count"@, JsonView::Number(decimal_seq(nodes@.len()))),
            ("generator"@, JsonView::Str("reasons/"@ + meta.version@)),
        ],
    );
    proof {
        if let JsonView::Object(t) = meta_view {
            lemma_object_jv(me, t);
        }
    }
    let mut ns: Vec<(String, JsonValue)> = Vec::new();
    let mut k: usize = 0;
    while k < nodes.len()
        invariant
            k <= nodes@.len(),
            ns@.len() == k,
            forall|i: int|
                0 <= i < k ==> (#[trigger] ns@[i]).0@ == nodes@[i].id@ && ns@[i].1.jv() == node_json(
                    nodes@[i],
                    justs_for(justs@, nodes@[i].id@),
                ),
        decreases nodes@.len() - k,
    {
        ns.push((nodes[k].id.clone(), node_value(&nodes[k], justs)));
        k = k + 1;
    }
    proof {
        lemma_object_jv(ns, nodes@.map_values(|n: Node| (n.id@, node_json(n, justs_for(justs@, n.id@)))));
    }
    let mut gs: Vec<JsonValue> = Vec::new();
    let mut i: usize = 0;
    while i < nogoods.len()
        invariant
            i <= nogoods@.len(),
            gs@.len() == i,
            forall|m: int| 0 <= m < i ==> (#[trigger] gs@[m]).jv() == nogood_json(nogoods@[m]),
        decreases nogoods@.len() - i,
    {
        gs.push(nogood_value(&nogoods[i]));
        i = i + 1;
    }
    proof {
        lemma_array_jv(gs, nogoods@.map_values(|g: Nogood| nogood_json(g)));
    }
    let mut rs: Vec<(String, JsonValue)> = Vec::new();
    let mut j: usize = 0;
    while j < repos.len()
        invariant
            j <= repos@.len(),
            rs@.len() == j,
            forall|m: int|
                0 <= m < j ==> (#[trigger] rs@[m]).0@ == repos@[m].0@ && rs@[m].1.jv() == JsonView::Str(repos@[m].1@),
        decreases repos@.len() - j,
    {
        rs.push((repos[j].0.clone(), jstr(repos[j].1.as_str())));
        j = j + 1;
    }
    proof {
        lemma_object_jv(rs, repos@.map_values(|r: (String, String)| (r.0@, JsonView::Str(r.1@))));
    }
    let mut top: Vec<(String, JsonValue)> = Vec::new();
    top.push((owned("meta"), JsonValue::Object(me)));
    top.push((owned("nodes"), JsonValue::Object(ns)));
    top.push((owned("nogoods"), JsonValue::Array(gs)));
    top.push((owned("repos"), JsonValue::Object(rs)));
    proof {
        if let JsonView::Object(t) = export_json(*meta, nodes@, justs@, nogoods@, repos@) {
            lemma_object_jv(top, t);
        }
    }
    JsonValue::Object(top)
}

} // verus!
