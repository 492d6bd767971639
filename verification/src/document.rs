//! The document builder: a file's lines become a deduplicated endpoint
//! collection, per-line diagnostics, and one output document holding the
//! endpoints plus a selection group that names them all.

use vstd::prelude::*;
use crate::endpoint::{line_model, parse_line, Endpoint, EndpointKind, EndpointView, LineError};

verus! {

/// Appends an endpoint unless an equal one is already present.
pub open spec fn dedup_push(acc: Seq<EndpointView>, e: EndpointView) -> Seq<EndpointView> {
    if acc.contains(e) {
        acc
    } else {
        acc.push(e)
    }
}

/// The deduplicated endpoints of a file's lines, in order of first
/// occurrence: every line that parses contributes its endpoint once.
pub open spec fn endpoints_model(lines: Seq<Seq<char>>, default: EndpointKind) -> Seq<EndpointView>
    decreases lines.len(),
{
    if lines.len() == 0 {
        Seq::empty()
    } else {
        let prev = endpoints_model(lines.drop_last(), default);
        match line_model(lines.last(), default) {
            Ok(e) => dedup_push(prev, e),
            Err(_) => prev,
        }
    }
}

/// One reported line: its position in the input and what was wrong with it.
#[derive(Debug, Clone, Copy, PartialEq, Eq, Structural)]
pub struct LineDiagnostic {
    pub line_index: usize,
    pub error: LineError,
}

/// The diagnostics of a file's lines, in line order: one entry per line
/// that does not parse.
pub open spec fn diagnostics_model(lines: Seq<Seq<char>>, default: EndpointKind) -> Seq<
    LineDiagnostic,
>
    decreases lines.len(),
{
    if lines.len() == 0 {
        Seq::empty()
    } else {
        let prev = diagnostics_model(lines.drop_last(), default);
        match line_model(lines.last(), default) {
            Ok(_) => prev,
            Err(er) => prev.push(
                LineDiagnostic { line_index: (lines.len() - 1) as usize, error: er },
            ),
        }
    }
}

/// Whether some line parses to exactly this endpoint.
pub open spec fn some_line_parses_to(
    lines: Seq<Seq<char>>,
    default: EndpointKind,
    e: EndpointView,
) -> bool {
    exists|i: int|
        0 <= i < lines.len() && line_model(#[trigger] lines[i], default) == Ok::<
            EndpointView,
            LineError,
        >(e)
}

/// Whether the collection already holds this endpoint.
fn contains_endpoint(v: &Vec<Endpoint>, e: &Endpoint) -> (r: bool)
    ensures
        r == v@.map_values(|x: Endpoint| x@).contains(e@),
{
    let ghost m = v@.map_values(|x: Endpoint| x@);
    let mut j: usize = 0;
    while j < v.len()
        invariant
            0 <= j <= m.len(),
            m == v@.map_values(|x: Endpoint| x@),
            m.len() == v@.len(),
            forall|i: int| 0 <= i < j ==> #[trigger] m[i] != e@,
        decreases m.len() - j,
    {
        if v[j].same_as(e) {
            assert(m[j as int] == e@);
            return true;
        }
        j += 1;
    }
    assert(!m.contains(e@));
    false
}

/// Parses every line, deduplicates the endpoints (first occurrence kept, in
/// order), and reports each line that does not parse. No line aborts the
/// run.
pub fn collect_endpoints(lines: &Vec<String>, default: EndpointKind) -> (r: (
    Vec<Endpoint>,
    Vec<LineDiagnostic>,
))
    ensures
        r.0@.map_values(|e: Endpoint| e@) == endpoints_model(
            lines@.map_values(|l: String| l@),
            default,
        ),
        r.1@ == diagnostics_model(lines@.map_values(|l: String| l@), default),
{
    let ghost lm = lines@.map_values(|l: String| l@);
    let mut endpoints: Vec<Endpoint> = Vec::new();
    let mut diagnostics: Vec<LineDiagnostic> = Vec::new();
    let mut i: usize = 0;
    proof {
        assert(lm.take(0) =~= Seq::<Seq<char>>::empty());
    }
    while i < lines.len()
        invariant
            0 <= i <= lm.len(),
            lm == lines@.map_values(|l: String| l@),
            lm.len() == lines@.len(),
            endpoints@.map_values(|e: Endpoint| e@) == endpoints_model(lm.take(i as int), default),
            diagnostics@ == diagnostics_model(lm.take(i as int), default),
        decreases lm.len() - i,
    {
        proof {
            assert(lm.take(i + 1).drop_last() =~= lm.take(i as int));
            assert(lm.take(i + 1).last() == lm[i as int]);
        }
        match parse_line(lines[i].as_str(), default) {
            Ok(e) => {
                if !contains_endpoint(&endpoints, &e) {
                    endpoints.push(e);
                    proof {
                        assert(endpoints@.map_values(|x: Endpoint| x@) =~= endpoints_model(
                            lm.take(i + 1),
                            default,
                        ));
                    }
                }
            },
            Err(er) => {
                diagnostics.push(LineDiagnostic { line_index: i, error: er });
            },
        }
        i += 1;
    }
    proof {
        assert(lm.take(lm.len() as int) =~= lm);
    }
    (endpoints, diagnostics)
}

/// The endpoint collection never holds a duplicate, and holds an endpoint
/// exactly when some input line parses to it.
pub proof fn lemma_endpoints_model_dedup(lines: Seq<Seq<char>>, default: EndpointKind)
    ensures
        forall|i: int, j: int|
            0 <= i < j < endpoints_model(lines, default).len() ==> endpoints_model(
                lines,
                default,
            )[i] != endpoints_model(lines, default)[j],
        forall|e: EndpointView|
            #[trigger] endpoints_model(lines, default).contains(e) <==> some_line_parses_to(
                lines,
                default,
                e,
            ),
    decreases lines.len(),
{
    let cur = endpoints_model(lines, default);
    if lines.len() == 0 {
        assert forall|e: EndpointView| #[trigger] cur.contains(e) implies some_line_parses_to(
            lines,
            default,
            e,
        ) by {
            assert(false);
        }
        assert forall|e: EndpointView| some_line_parses_to(lines, default, e) implies cur.contains(
            e,
        ) by {
            let i = choose|i: int|
                0 <= i < lines.len() && line_model(lines[i], default) == Ok::<
                    EndpointView,
                    LineError,
                >(e);
            assert(false);
        }
    } else {
        let rest = lines.drop_last();
        let prev = endpoints_model(rest, default);
        lemma_endpoints_model_dedup(rest, default);
        assert forall|e: EndpointView| #[trigger] cur.contains(e) implies some_line_parses_to(
            lines,
            default,
            e,
        ) by {
            let j = choose|j: int| 0 <= j < cur.len() && cur[j] == e;
            if j < prev.len() {
                assert(prev.contains(e));
                let i = choose|i: int|
                    0 <= i < rest.len() && line_model(#[trigger] rest[i], default) == Ok::<
                        EndpointView,
                        LineError,
                    >(e);
                assert(lines[i] == rest[i]);
                assert(line_model(lines[i], default) == Ok::<EndpointView, LineError>(e));
            } else {
                assert(line_model(lines[lines.len() - 1], default) == Ok::<
                    EndpointView,
                    LineError,
                >(e));
            }
        }
        assert forall|e: EndpointView| some_line_parses_to(lines, default, e) implies cur.contains(
            e,
        ) by {
            let i = choose|i: int|
                0 <= i < lines.len() && line_model(#[trigger] lines[i], default) == Ok::<
                    EndpointView,
                    LineError,
                >(e);
            if i < lines.len() - 1 {
                assert(rest[i] == lines[i]);
                assert(some_line_parses_to(rest, default, e));
                assert(prev.contains(e));
                let j = choose|j: int| 0 <= j < prev.len() && prev[j] == e;
                assert(cur[j] == e);
            } else {
                match line_model(lines.last(), default) {
                    Ok(le) => {
                        if prev.contains(e) {
                            let j = choose|j: int| 0 <= j < prev.len() && prev[j] == e;
                            assert(cur[j] == e);
                        } else {
                            assert(cur.last() == e);
                        }
                    },
                    Err(_) => {
                        assert(false);
                    },
                }
            }
        }
        match line_model(lines.last(), default) {
            Ok(e) => {
                if !prev.contains(e) {
                    assert forall|i: int, j: int| 0 <= i < j < cur.len() implies cur[i]
                        != cur[j] by {
                        if j == cur.len() - 1 {
                            assert(cur[j] == e);
                            if cur[i] == e {
                                assert(prev[i] == e);
                                assert(prev.contains(e));
                            }
                        }
                    }
                }
            },
            Err(_) => {},
        }
    }
}

/// A named group listing every endpoint of one file by display name.
pub struct SelectionGroup {
    pub name: String,
    pub group_kind: String,
    pub members: Vec<String>,
}

/// The structured artifact written for one input file: all endpoints, one
/// selection group naming them, and the fixed routing rule.
pub struct OutputDocument {
    pub endpoints: Vec<Endpoint>,
    pub group: SelectionGroup,
    pub rule: String,
}

/// The fixed group kind label.
pub open spec fn select_text() -> Seq<char> {
    seq!['s', 'e', 'l', 'e', 'c', 't']
}

/// The fixed routing rule of the output document.
pub open spec fn match_direct_text() -> Seq<char> {
    seq!['M', 'A', 'T', 'C', 'H', ',', 'D', 'I', 'R', 'E', 'C', 'T']
}

/// Wraps a deduplicated endpoint collection into the output document: the
/// selection group lists one member per endpoint, in order, by display
/// name.
pub fn build_document(endpoints: Vec<Endpoint>, group_name: String) -> (doc: OutputDocument)
    ensures
        doc.endpoints@ == endpoints@,
        doc.group.name@ == group_name@,
        doc.group.group_kind@ == select_text(),
        doc.group.members@.len() == endpoints@.len(),
        forall|i: int|
            0 <= i < endpoints@.len() ==> #[trigger] doc.group.members@[i]@ == endpoints@[i]@.name,
        doc.rule@ == match_direct_text(),
{
    let mut members: Vec<String> = Vec::new();
    let mut i: usize = 0;
    while i < endpoints.len()
        invariant
            0 <= i <= endpoints@.len(),
            members@.len() == i,
            forall|j: int| 0 <= j < i ==> #[trigger] members@[j]@ == endpoints@[j]@.name,
        decreases endpoints@.len() - i,
    {
        members.push(endpoints[i].name.clone());
        i += 1;
    }
    proof {
        reveal_strlit("select");
        assert("select"@ =~= select_text());
        reveal_strlit("MATCH,DIRECT");
        assert("MATCH,DIRECT"@ =~= match_direct_text());
    }
    OutputDocument {
        endpoints,
        group: SelectionGroup {
            name: group_name,
            group_kind: "select".to_owned(),
            members,
        },
        rule: "MATCH,DIRECT".to_owned(),
    }
}

/// When the endpoints' names are pairwise distinct, each member name of the
/// group matches exactly one endpoint: the one at its own position. (Two
/// endpoints that differ only in kind share a display name; on such input
/// only the cardinality clause of [`build_document`] holds.)
pub proof fn lemma_members_match_unique(endpoints: Seq<EndpointView>, members: Seq<Seq<char>>)
    requires
        members.len() == endpoints.len(),
        forall|i: int| 0 <= i < members.len() ==> #[trigger] members[i] == endpoints[i].name,
        forall|i: int, j: int|
            0 <= i < j < endpoints.len() ==> endpoints[i].name != endpoints[j].name,
    ensures
        forall|i: int, j: int|
            #![trigger members[i], endpoints[j].name]
            0 <= i < members.len() && 0 <= j < endpoints.len() && endpoints[j].name == members[i]
                ==> j == i,
{
    assert forall|i: int, j: int|
        #![trigger members[i], endpoints[j].name]
        0 <= i < members.len() && 0 <= j < endpoints.len() && endpoints[j].name == members[i]
            implies j == i by {
        if j < i {
            assert(endpoints[j].name != endpoints[i].name);
        } else if i < j {
            assert(endpoints[i].name != endpoints[j].name);
        }
    }
}

/// The whole per-file computation: parse, deduplicate, report, and build
/// the document, with the file's path as the group name.
pub fn process_file_lines(lines: &Vec<String>, default: EndpointKind, group_name: String) -> (r: (
    OutputDocument,
    Vec<LineDiagnostic>,
))
    ensures
        ({
            let lm = lines@.map_values(|l: String| l@);
            let doc = r.0;
            &&& doc.endpoints@.map_values(|e: Endpoint| e@) == endpoints_model(lm, default)
            &&& r.1@ == diagnostics_model(lm, default)
            &&& doc.group.name@ == group_name@
            &&& doc.group.group_kind@ == select_text()
            &&& doc.group.members@.len() == doc.endpoints@.len()
            &&& forall|i: int|
                0 <= i < doc.endpoints@.len() ==> #[trigger] doc.group.members@[i]@
                    == doc.endpoints@[i]@.name
            &&& doc.rule@ == match_direct_text()
        }),
{
    let (endpoints, diagnostics) = collect_endpoints(lines, default);
    let doc = build_document(endpoints, group_name);
    (doc, diagnostics)
}

/// The index of the last occurrence of `c`, or -1 if there is none.
pub open spec fn last_index_of(s: Seq<char>, c: char) -> int
    decreases s.len(),
{
    if s.len() == 0 {
        -1
    } else if s.last() == c {
        s.len() - 1
    } else {
        last_index_of(s.drop_last(), c)
    }
}

/// The sibling output path: the input path with its extension replaced by
/// `ext`. The extension is what follows the last `.` of the final
/// `/`-separated component, unless that `.` starts the component (a hidden
/// file has no extension); without one, `.` and `ext` are appended.
pub open spec fn output_path_text(path: Seq<char>, ext: Seq<char>) -> Seq<char> {
    let slash = last_index_of(path, '/');
    let dot = last_index_of(path, '.');
    let cut = if dot > slash + 1 {
        dot
    } else {
        path.len() as int
    };
    path.take(cut) + seq!['.'] + ext
}

proof fn lemma_last_index_bound(s: Seq<char>, c: char)
    ensures
        -1 <= last_index_of(s, c) < s.len(),
    decreases s.len(),
{
    if s.len() > 0 && s.last() != c {
        lemma_last_index_bound(s.drop_last(), c);
    }
}

/// Derives the output file path from an input path.
pub fn output_path(path: &str, ext: &str) -> (r: String)
    ensures
        r@ == output_path_text(path@, ext@),
{
    let n = path.unicode_len();
    let mut has_slash: bool = false;
    let mut slash_at: usize = 0;
    let mut has_dot: bool = false;
    let mut dot_at: usize = 0;
    let mut i: usize = 0;
    proof {
        assert(path@.take(0) =~= Seq::<char>::empty());
    }
    while i < n
        invariant
            n == path@.len(),
            0 <= i <= n,
            has_slash ==> slash_at < i && slash_at == last_index_of(path@.take(i as int), '/'),
            !has_slash ==> last_index_of(path@.take(i as int), '/') == -1,
            has_dot ==> dot_at < i && dot_at == last_index_of(path@.take(i as int), '.'),
            !has_dot ==> last_index_of(path@.take(i as int), '.') == -1,
        decreases n - i,
    {
        let c = path.get_char(i);
        proof {
            assert(path@.take(i + 1).drop_last() =~= path@.take(i as int));
            assert(path@.take(i + 1).last() == path@[i as int]);
        }
        if c == '/' {
            has_slash = true;
            slash_at = i;
        } else if c == '.' {
            has_dot = true;
            dot_at = i;
        }
        i += 1;
    }
    proof {
        assert(path@.take(n as int) =~= path@);
        lemma_last_index_bound(path@, '/');
        lemma_last_index_bound(path@, '.');
    }
    let replaces = if has_dot {
        if has_slash {
            dot_at > slash_at + 1
        } else {
            dot_at > 0
        }
    } else {
        false
    };
    let cut = if replaces {
        dot_at
    } else {
        n
    };
    let r = path.substring_char(0, cut).to_owned().concat(".").concat(ext);
    proof {
        reveal_strlit(".");
        assert("."@ =~= seq!['.']);
        assert(r@ =~= output_path_text(path@, ext@));
    }
    r
}

} // verus!
