//! The independent check of the output: a sample of its rows is resolved once more, straight
//! over the graph, without the directory map.

use vstd::prelude::*;
use vstd::string::StringExecFns;

use crate::ntf::graph::{graph_is, labels_view, EdgeLabel, Graph, GraphModel, NodeType};
use crate::ntf::order::is_same_text;
use crate::ntf::provenance::{root_dir, root_dir_of_rev};
use crate::ntf::text::{bytes_view, component_bytes, path_components};

verus! {

/// Whether one of the labels is a directory entry with the given name.
pub open spec fn has_label(g: GraphModel, labels: Seq<EdgeLabel>, name: Seq<u8>) -> bool {
    exists|j: int|
        0 <= j < labels.len() && (#[trigger] labels[j]) is DirEntry && (g.label_name)(
            labels[j]->name,
        ) == name
}

/// The child on the first arc that has an entry with the given name.
pub open spec fn child_named(
    g: GraphModel,
    arcs: Seq<(usize, Seq<EdgeLabel>)>,
    name: Seq<u8>,
) -> Option<usize>
    decreases arcs.len(),
{
    if arcs.len() == 0 {
        None
    } else if has_label(g, arcs[0].1, name) {
        Some(arcs[0].0)
    } else {
        child_named(g, arcs.drop_first(), name)
    }
}

/// The content that a path leads to from directory `cur`: each step but the last leads to a
/// directory, the last to a content.
pub open spec fn direct_from(g: GraphModel, cur: usize, path: Seq<Seq<u8>>) -> Option<usize>
    decreases path.len(),
{
    if path.len() == 0 {
        None
    } else {
        match child_named(g, (g.labels)(cur), path[0]) {
            None => None,
            Some(child) => if path.len() == 1 {
                if (g.node_type)(child) == NodeType::Content {
                    Some(child)
                } else {
                    None
                }
            } else if (g.node_type)(child) == NodeType::Directory {
                direct_from(g, child, path.drop_first())
            } else {
                None
            },
        }
    }
}

/// The content that a path leads to from the root directory of a revision.
pub open spec fn direct_leaf(g: GraphModel, rev_swhid: Seq<char>, rel_path: Seq<char>) -> Option<
    usize,
> {
    match (g.node_id)(rev_swhid) {
        None => None,
        Some(rev) => match root_dir(g, rev) {
            None => None,
            Some(root) => direct_from(g, root, component_bytes(rel_path)),
        },
    }
}

/// The SWHID of the content that a path leads to.
pub open spec fn direct(g: GraphModel, rev_swhid: Seq<char>, rel_path: Seq<char>) -> Option<
    Seq<char>,
> {
    match direct_leaf(g, rev_swhid, rel_path) {
        None => None,
        Some(leaf) => Some((g.swhid)(leaf)),
    }
}

/// Whether two byte strings are the same.
fn same_bytes(a: &Vec<u8>, b: &Vec<u8>) -> (r: bool)
    ensures
        r == (a@ == b@),
{
    if a.len() != b.len() {
        return false;
    }
    let mut i: usize = 0;
    while i < a.len()
        invariant
            i <= a@.len() == b@.len(),
            forall|j: int| 0 <= j < i ==> a@[j] == b@[j],
        decreases a@.len() - i,
    {
        if a[i] != b[i] {
            return false;
        }
        i = i + 1;
    }
    assert(a@ =~= b@);
    true
}

/// The child of `cur` on the first arc that has an entry with the given name.
fn find_child<G: Graph>(graph: &G, cur: usize, name: &Vec<u8>) -> (r: Option<usize>)
    ensures
        forall|g: GraphModel| #[trigger]
            graph_is(graph, g) ==> r == child_named(g, (g.labels)(cur), name@),
{
    let arcs = graph.labeled_successors(cur);
    let ghost view = labels_view(arcs@);
    let mut i: usize = 0;
    assert(view.skip(0) =~= view);
    while i < arcs.len()
        invariant
            i <= arcs@.len(),
            view == labels_view(arcs@),
            forall|g: GraphModel| #[trigger]
                graph_is(graph, g) ==> child_named(g, (g.labels)(cur), name@) == child_named(
                    g,
                    view.skip(i as int),
                    name@,
                ),
        decreases arcs@.len() - i,
    {
        let ghost labels = arcs@[i as int].1@;
        assert(view.skip(i as int)[0] == (arcs@[i as int].0, labels));
        let mut j: usize = 0;
        while j < arcs[i].1.len()
            invariant
                i < arcs@.len(),
                view == labels_view(arcs@),
                labels == arcs@[i as int].1@,
                view.skip(i as int)[0] == (arcs@[i as int].0, labels),
                j <= labels.len(),
                forall|g: GraphModel| #[trigger]
                    graph_is(graph, g) ==> {
                        &&& child_named(g, (g.labels)(cur), name@) == child_named(
                            g,
                            view.skip(i as int),
                            name@,
                        )
                        &&& forall|k: int|
                            0 <= k < j && (#[trigger] labels[k]) is DirEntry ==> (g.label_name)(
                                labels[k]->name,
                            ) != name@
                    },
            decreases labels.len() - j,
        {
            match arcs[i].1[j] {
                EdgeLabel::DirEntry { name: id } => {
                    let bytes = graph.label_name(id);
                    if same_bytes(&bytes, name) {
                        assert forall|g: GraphModel| #[trigger] graph_is(graph, g) implies has_label(
                            g,
                            labels,
                            name@,
                        ) by {
                            assert(labels[j as int] is DirEntry);
                        }
                        return Some(arcs[i].0);
                    }
                },
                _ => {},
            }
            j = j + 1;
        }
        assert(view.skip(i as int).drop_first() =~= view.skip(i + 1));
        i = i + 1;
    }
    None
}

/// The SWHID of the content that a path leads to from the root directory of a revision.
pub fn direct_resolve<G: Graph>(graph: &G, rev_swhid: &str, rel_path: &str) -> (r: Option<String>)
    ensures
        forall|g: GraphModel| #[trigger]
            graph_is(graph, g) ==> match direct(g, rev_swhid@, rel_path@) {
                Some(swhid) => r matches Some(s) && s@ == swhid,
                None => r is None,
            },
{
    let rev: usize = match graph.node_id(rev_swhid) {
        Some(rev) => rev,
        None => {
            return None;
        },
    };
    let root: usize = match root_dir_of_rev(graph, rev) {
        Some(root) => root,
        None => {
            return None;
        },
    };
    let parts = path_components(rel_path);
    let ghost path = bytes_view(parts@);
    let mut cur: usize = root;
    let mut i: usize = 0;
    assert(path.skip(0) =~= path);
    while i < parts.len()
        invariant
            i <= parts@.len(),
            path == bytes_view(parts@),
            forall|g: GraphModel| #[trigger]
                graph_is(graph, g) ==> direct_leaf(g, rev_swhid@, rel_path@) == direct_from(
                    g,
                    cur,
                    path.skip(i as int),
                ),
        decreases parts@.len() - i,
    {
        assert(path.skip(i as int)[0] == parts@[i as int]@);
        let child: usize = match find_child(graph, cur, &parts[i]) {
            Some(child) => child,
            None => {
                return None;
            },
        };
        let nt = graph.node_type(child);
        if i + 1 == parts.len() {
            return if nt == NodeType::Content {
                Some(graph.swhid(child))
            } else {
                None
            };
        }
        if nt != NodeType::Directory {
            return None;
        }
        assert(path.skip(i as int).drop_first() =~= path.skip(i + 1));
        cur = child;
        i = i + 1;
    }
    None
}

/// One row of the output that is checked.
pub struct Row {
    pub rev_swhid: String,
    pub rel_path: String,
    pub cnt_swhid: String,
}

/// How many rows have a status.
pub struct StatusCount {
    pub status: String,
    pub count: u64,
}

/// How many rows have the given status.
pub open spec fn count_of(hist: Seq<StatusCount>, status: Seq<char>) -> u64
    decreases hist.len(),
{
    if hist.len() == 0 {
        0
    } else if hist.last().status@ == status {
        hist.last().count
    } else {
        count_of(hist.drop_last(), status)
    }
}

/// Each status is counted once.
pub open spec fn distinct_statuses(hist: Seq<StatusCount>) -> bool {
    forall|i: int, j: int| 0 <= i < j < hist.len() ==> hist[i].status@ != hist[j].status@
}

proof fn lemma_count_at(hist: Seq<StatusCount>, i: int)
    requires
        distinct_statuses(hist),
        0 <= i < hist.len(),
    ensures
        count_of(hist, hist[i].status@) == hist[i].count,
    decreases hist.len(),
{
    if i < hist.len() - 1 {
        lemma_count_at(hist.drop_last(), i);
        assert(hist.drop_last()[i] == hist[i]);
        assert(hist[i].status@ != hist[hist.len() - 1].status@);
    }
}

proof fn lemma_count_none(hist: Seq<StatusCount>, status: Seq<char>)
    requires
        forall|i: int| 0 <= i < hist.len() ==> (#[trigger] hist[i]).status@ != status,
    ensures
        count_of(hist, status) == 0,
    decreases hist.len(),
{
    if hist.len() > 0 {
        assert forall|i: int| 0 <= i < hist.drop_last().len() implies (#[trigger] hist.drop_last()[i]).status@
            != status by {
            assert(hist.drop_last()[i] == hist[i]);
        }
        lemma_count_none(hist.drop_last(), status);
    }
}

proof fn lemma_count_update(hist: Seq<StatusCount>, i: int, c: StatusCount, status: Seq<char>)
    requires
        0 <= i < hist.len(),
        c.status@ == hist[i].status@,
        status != c.status@,
    ensures
        count_of(hist.update(i, c), status) == count_of(hist, status),
    decreases hist.len(),
{
    let after = hist.update(i, c);
    if i < hist.len() - 1 {
        assert(after.drop_last() =~= hist.drop_last().update(i, c));
        lemma_count_update(hist.drop_last(), i, c, status);
    } else {
        assert(after.drop_last() =~= hist.drop_last());
    }
}

/// Counts one more row with the given status.
pub fn count_status(hist: &mut Vec<StatusCount>, status: &str)
    requires
        distinct_statuses(old(hist)@),
        count_of(old(hist)@, status@) < u64::MAX,
    ensures
        distinct_statuses(final(hist)@),
        forall|s: Seq<char>| #[trigger]
            count_of(final(hist)@, s) == count_of(old(hist)@, s) + if s == status@ {
                1int
            } else {
                0
            },
{
    let ghost before = hist@;
    let mut i: usize = 0;
    while i < hist.len()
        invariant
            i <= hist@.len(),
            hist@ == before,
            before == old(hist)@,
            distinct_statuses(before),
            count_of(before, status@) < u64::MAX,
            forall|k: int| 0 <= k < i ==> (#[trigger] before[k]).status@ != status@,
        decreases hist@.len() - i,
    {
        if is_same_text(hist[i].status.as_str(), status) {
            proof {
                lemma_count_at(before, i as int);
            }
            let count: u64 = hist[i].count + 1;
            let entry = StatusCount { status: status.to_owned(), count };
            hist.set(i, entry);
            proof {
                let after = hist@;
                assert(after =~= before.update(i as int, entry));
                assert(distinct_statuses(after)) by {
                    assert forall|a: int, b: int| 0 <= a < b < after.len() implies after[a].status@
                        != after[b].status@ by {
                        assert(before[a].status@ != before[b].status@);
                        assert(after[a].status@ == before[a].status@);
                        assert(after[b].status@ == before[b].status@);
                    }
                }
                lemma_count_at(after, i as int);
                assert forall|s: Seq<char>| #[trigger] count_of(after, s) == count_of(before, s)
                    + if s == status@ {
                    1int
                } else {
                    0
                } by {
                    if s != status@ {
                        lemma_count_update(before, i as int, entry, s);
                    }
                }
            }
            return ;
        }
        i = i + 1;
    }
    proof {
        lemma_count_none(before, status@);
    }
    hist.push(StatusCount { status: status.to_owned(), count: 1 });
    proof {
        assert(hist@.drop_last() =~= before);
        assert(distinct_statuses(hist@)) by {
            assert forall|a: int, b: int| 0 <= a < b < hist@.len() implies hist@[a].status@
                != hist@[b].status@ by {
                if b < before.len() {
                    assert(before[a].status@ != before[b].status@);
                }
            }
        }
    }
}

/// One batch of the output.
pub struct OutputBatch {
    pub rev_swhid: Vec<String>,
    pub rel_path: Vec<String>,
    pub cnt_swhid: Vec<String>,
    pub status: Vec<String>,
}

impl OutputBatch {
    /// The columns are equally long.
    pub open spec fn wf(&self) -> bool {
        &&& self.rel_path@.len() == self.rev_swhid@.len()
        &&& self.cnt_swhid@.len() == self.rev_swhid@.len()
        &&& self.status@.len() == self.rev_swhid@.len()
    }

    /// The rows among the first `n` whose path was found.
    pub open spec fn ok_rows(&self, n: int) -> Seq<(Seq<char>, Seq<char>, Seq<char>)>
        decreases n,
    {
        if n <= 0 {
            Seq::empty()
        } else if self.status@[n - 1]@ == "ok"@ {
            self.ok_rows(n - 1).push(
                (self.rev_swhid@[n - 1]@, self.rel_path@[n - 1]@, self.cnt_swhid@[n - 1]@),
            )
        } else {
            self.ok_rows(n - 1)
        }
    }

    /// How many rows among the first `n` have the given status.
    pub open spec fn status_count(&self, status: Seq<char>, n: int) -> nat
        decreases n,
    {
        if n <= 0 {
            0
        } else {
            self.status_count(status, n - 1) + if self.status@[n - 1]@ == status {
                1nat
            } else {
                0nat
            }
        }
    }
}

/// The rows of the output that were read, and those among them that are checked.
pub struct Sample {
    pub rows: Vec<Row>,
    pub n_ok: u64,
    pub n_total: u64,
    pub hist: Vec<StatusCount>,
}

/// Rows as mathematics sees them.
pub open spec fn sample_view(rows: Seq<Row>) -> Seq<(Seq<char>, Seq<char>, Seq<char>)> {
    rows.map_values(|r: Row| (r.rev_swhid@, r.rel_path@, r.cnt_swhid@))
}

impl Sample {
    /// Each status is counted once, and no count exceeds the number of rows.
    pub open spec fn wf(&self) -> bool {
        &&& distinct_statuses(self.hist@)
        &&& self.n_ok <= self.n_total
        &&& forall|s: Seq<char>| #[trigger] count_of(self.hist@, s) <= self.n_total
    }

    /// Nothing was read yet.
    pub fn new() -> (r: Sample)
        ensures
            r.wf(),
            r.rows@.len() == 0,
            r.n_ok == 0,
            r.n_total == 0,
            forall|s: Seq<char>| #[trigger] count_of(r.hist@, s) == 0,
    {
        Sample { rows: Vec::new(), n_ok: 0, n_total: 0, hist: Vec::new() }
    }

    /// Takes in one batch: counts its rows by status, and takes the first rows whose path was
    /// found into the sample, until it has `n`. Returns whether it has.
    pub fn take_batch(&mut self, batch: &OutputBatch, n: usize) -> (r: bool)
        requires
            old(self).wf(),
            batch.wf(),
            old(self).n_total + batch.status@.len() <= u64::MAX,
        ensures
            final(self).wf(),
            final(self).n_total == old(self).n_total + batch.status@.len(),
            final(self).n_ok == old(self).n_ok + batch.ok_rows(batch.status@.len() as int).len(),
            forall|s: Seq<char>| #[trigger]
                count_of(final(self).hist@, s) == count_of(old(self).hist@, s)
                    + batch.status_count(s, batch.status@.len() as int),
            taken(
                sample_view(old(self).rows@),
                batch.ok_rows(batch.status@.len() as int),
                n as int,
                sample_view(final(self).rows@),
            ),
            r == (final(self).rows@.len() >= n),
    {
        let len: usize = batch.status.len();
        let mut i: usize = 0;
        assert(sample_view(self.rows@) =~= sample_view(old(self).rows@) + Seq::empty().take(0));
        while i < len
            invariant
                i <= len == batch.status@.len(),
                batch.wf(),
                self.wf(),
                old(self).n_total + len <= u64::MAX,
                self.n_total == old(self).n_total + i,
                self.n_ok == old(self).n_ok + batch.ok_rows(i as int).len(),
                forall|s: Seq<char>| #[trigger]
                    count_of(self.hist@, s) == count_of(old(self).hist@, s) + batch.status_count(
                        s,
                        i as int,
                    ),
                taken(
                    sample_view(old(self).rows@),
                    batch.ok_rows(i as int),
                    n as int,
                    sample_view(self.rows@),
                ),
            decreases len - i,
        {
            let status = batch.status[i].as_str();
            let ghost before = sample_view(self.rows@);
            let ghost oks = batch.ok_rows(i as int);
            self.n_total = self.n_total + 1;
            count_status(&mut self.hist, status);
            if is_same_text(status, "ok") {
                self.n_ok = self.n_ok + 1;
                if self.rows.len() < n {
                    self.rows.push(
                        Row {
                            rev_swhid: batch.rev_swhid[i].clone(),
                            rel_path: batch.rel_path[i].clone(),
                            cnt_swhid: batch.cnt_swhid[i].clone(),
                        },
                    );
                }
                proof {
                    let row = (
                        batch.rev_swhid@[i as int]@,
                        batch.rel_path@[i as int]@,
                        batch.cnt_swhid@[i as int]@,
                    );
                    lemma_taken_push(
                        sample_view(old(self).rows@),
                        oks,
                        n as int,
                        before,
                        row,
                    );
                    if before.len() < n {
                        assert(sample_view(self.rows@) =~= before.push(row));
                    }
                }
            }
            i = i + 1;
        }
        self.rows.len() >= n
    }
}

/// `after` is `before` with the first of `oks` behind it, until there are `n`.
pub open spec fn taken<T>(before: Seq<T>, oks: Seq<T>, n: int, after: Seq<T>) -> bool {
    let room = if before.len() >= n {
        0
    } else {
        n - before.len()
    };
    after == before + oks.take(
        if oks.len() < room {
            oks.len() as int
        } else {
            room
        },
    )
}

proof fn lemma_taken_push<T>(before: Seq<T>, oks: Seq<T>, n: int, after: Seq<T>, row: T)
    requires
        taken(before, oks, n, after),
    ensures
        taken(
            before,
            oks.push(row),
            n,
            if after.len() < n {
                after.push(row)
            } else {
                after
            },
        ),
{
    let next = oks.push(row);
    let room = if before.len() >= n {
        0
    } else {
        n - before.len()
    };
    if oks.len() < room {
        assert(oks.take(oks.len() as int) =~= oks);
        assert(next.take(next.len() as int) =~= next);
        assert(after.push(row) =~= before + next);
    } else {
        assert(next.take(room) =~= oks.take(room));
    }
}

/// What the check of one row gives.
pub enum Outcome {
    Matched,
    Mismatched { direct: Seq<char> },
    Unresolved,
}

/// What the check of a row gives.
pub open spec fn outcome(g: GraphModel, row: Row) -> Outcome {
    match direct(g, row.rev_swhid@, row.rel_path@) {
        Some(cnt) => if cnt == row.cnt_swhid@ {
            Outcome::Matched
        } else {
            Outcome::Mismatched { direct: cnt }
        },
        None => Outcome::Unresolved,
    }
}

/// What is said of a row that does not match.
pub open spec fn complaint(row: Row, o: Outcome) -> Seq<char> {
    match o {
        Outcome::Mismatched { direct } => "MISMATCH rev="@ + row.rev_swhid@ + " path="@
            + row.rel_path@ + " pipeline="@ + row.cnt_swhid@ + " direct="@ + direct,
        _ => "DIRECT-UNRESOLVED rev="@ + row.rev_swhid@ + " path="@ + row.rel_path@
            + " pipeline="@ + row.cnt_swhid@,
    }
}

/// The number of examples that a report gives.
pub const MAX_EXAMPLES: usize = 10;

/// What the check of the sample gives.
pub struct Report {
    pub matched: u64,
    pub mismatched: u64,
    pub unresolved: u64,
    pub examples: Vec<String>,
}

/// The numbers and the examples of a report.
pub struct ReportText {
    pub matched: nat,
    pub mismatched: nat,
    pub unresolved: nat,
    pub examples: Seq<Seq<char>>,
}

/// The report on the first `n` rows.
pub open spec fn report(g: GraphModel, rows: Seq<Row>, n: int) -> ReportText
    decreases n,
{
    if n <= 0 {
        ReportText { matched: 0, mismatched: 0, unresolved: 0, examples: Seq::empty() }
    } else {
        let before = report(g, rows, n - 1);
        let o = outcome(g, rows[n - 1]);
        let examples = if !(o is Matched) && before.examples.len() < MAX_EXAMPLES {
            before.examples.push(complaint(rows[n - 1], o))
        } else {
            before.examples
        };
        match o {
            Outcome::Matched => ReportText { matched: before.matched + 1, ..before },
            Outcome::Mismatched { .. } => ReportText {
                mismatched: before.mismatched + 1,
                examples,
                ..before
            },
            Outcome::Unresolved => ReportText {
                unresolved: before.unresolved + 1,
                examples,
                ..before
            },
        }
    }
}

impl View for Report {
    type V = ReportText;

    open spec fn view(&self) -> ReportText {
        ReportText {
            matched: self.matched as nat,
            mismatched: self.mismatched as nat,
            unresolved: self.unresolved as nat,
            examples: self.examples@.map_values(|s: String| s@),
        }
    }
}

/// Says what a direct walk gave where it did not match.
fn mismatch(row: &Row, direct: &str) -> (r: String)
    ensures
        r@ == complaint(*row, (Outcome::Mismatched { direct: direct@ })),
{
    let mut s = String::new();
    s.append("MISMATCH rev=");
    s.append(row.rev_swhid.as_str());
    s.append(" path=");
    s.append(row.rel_path.as_str());
    s.append(" pipeline=");
    s.append(row.cnt_swhid.as_str());
    s.append(" direct=");
    s.append(direct);
    assert(Seq::<char>::empty() + "MISMATCH rev="@ =~= "MISMATCH rev="@);
    s
}

/// Says that a direct walk gave nothing.
fn no_direct(row: &Row) -> (r: String)
    ensures
        r@ == complaint(*row, Outcome::Unresolved),
{
    let mut s = String::new();
    s.append("DIRECT-UNRESOLVED rev=");
    s.append(row.rev_swhid.as_str());
    s.append(" path=");
    s.append(row.rel_path.as_str());
    s.append(" pipeline=");
    s.append(row.cnt_swhid.as_str());
    assert(Seq::<char>::empty() + "DIRECT-UNRESOLVED rev="@ =~= "DIRECT-UNRESOLVED rev="@);
    s
}

/// Resolves each row of the sample straight over the graph, and compares.
pub fn check_sample<G: Graph>(graph: &G, rows: &Vec<Row>) -> (r: Report)
    ensures
        forall|g: GraphModel| #[trigger]
            graph_is(graph, g) ==> r@ == report(g, rows@, rows@.len() as int),
{
    let mut rep = Report { matched: 0, mismatched: 0, unresolved: 0, examples: Vec::new() };
    assert(rep.examples@.map_values(|s: String| s@) =~= Seq::<Seq<char>>::empty());
    let mut i: usize = 0;
    while i < rows.len()
        invariant
            i <= rows@.len(),
            rep.matched + rep.mismatched + rep.unresolved == i,
            forall|g: GraphModel| #[trigger]
                graph_is(graph, g) ==> rep@ == report(g, rows@, i as int),
        decreases rows@.len() - i,
    {
        let row = &rows[i];
        let ghost before = rep@;
        let ghost texts = rep.examples@;
        match direct_resolve(graph, row.rev_swhid.as_str(), row.rel_path.as_str()) {
            Some(cnt) => {
                if is_same_text(cnt.as_str(), row.cnt_swhid.as_str()) {
                    rep.matched = rep.matched + 1;
                } else {
                    rep.mismatched = rep.mismatched + 1;
                    if rep.examples.len() < MAX_EXAMPLES {
                        rep.examples.push(mismatch(row, cnt.as_str()));
                        assert(rep@.examples =~= before.examples.push(
                            complaint(*row, Outcome::Mismatched { direct: cnt@ }),
                        ));
                    }
                }
            },
            None => {
                rep.unresolved = rep.unresolved + 1;
                if rep.examples.len() < MAX_EXAMPLES {
                    rep.examples.push(no_direct(row));
                    assert(rep@.examples =~= before.examples.push(
                        complaint(*row, Outcome::Unresolved),
                    ));
                }
            },
        }
        i = i + 1;
    }
    rep
}

impl Report {
    /// Whether all rows of the sample matched.
    pub fn passed(&self) -> (r: bool)
        ensures
            r == (self.mismatched == 0 && self.unresolved == 0),
    {
        self.mismatched == 0 && self.unresolved == 0
    }
}

} // verus!
