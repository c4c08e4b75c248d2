use swh_resolver::ntf::cands::{cands_chunks, cands_columns, cands_fields};
use swh_resolver::ntf::columns::{
    first_column, input_columns, last_column, output_columns, seed_columns, MissingColumn,
};
use swh_resolver::ntf::scratch::OutRow;
use swh_resolver::ntf::traverse::{output_fields, OutputRow};

fn names(list: &[&str]) -> Vec<String> {
    list.iter().map(|s| s.to_string()).collect()
}

#[test]
fn columns_by_name() {
    let n = names(&["a", "b", "a", "c"]);
    assert_eq!(last_column(&n, "a"), Some(2));
    assert_eq!(first_column(&n, "a"), Some(0));
    assert_eq!(last_column(&n, "c"), Some(3));
    assert_eq!(last_column(&n, "d"), None);
    assert_eq!(first_column(&n, "d"), None);
    assert_eq!(first_column(&n, ""), None);
}

#[test]
fn input_positions_are_ranks() {
    let n = names(&["rel_path", "x", "bin", "y", "repo", "commit_id"]);
    let c = input_columns(&n).ok().unwrap();
    assert_eq!(c.leaves, vec![0, 2, 4, 5]);
    assert_eq!((c.rel_path, c.bin, c.repo, c.commit_id), (0, Some(1), 2, 3));

    let n = names(&["commit_id", "repo", "rel_path"]);
    let c = input_columns(&n).ok().unwrap();
    assert_eq!(c.leaves, vec![0, 1, 2]);
    assert_eq!((c.commit_id, c.repo, c.rel_path, c.bin), (0, 1, 2, None));
}

#[test]
fn columns_missing_from_the_input() {
    let err = |list: &[&str]| input_columns(&names(list)).err();
    assert_eq!(err(&["commit_id", "rel_path"]), Some(MissingColumn::Repo));
    assert_eq!(err(&["repo", "rel_path"]), Some(MissingColumn::CommitId));
    assert_eq!(err(&["repo", "commit_id"]), Some(MissingColumn::RelPath));
    assert_eq!(err(&[]), Some(MissingColumn::Repo));
}

#[test]
fn columns_of_the_seeds() {
    let full = ["repo", "commit_id", "rel_path", "id", "origin_url", "rev_swhid", "file_path", "bin"];
    let c = seed_columns(&names(&full)).ok().unwrap();
    assert_eq!(c.leaves, vec![0, 1, 2, 7, 5, 3]);
    assert!(c.from_rev_swhid);

    let c = seed_columns(&names(&["bin", "id", "rel_path", "commit_id", "repo"])).ok().unwrap();
    assert_eq!(c.leaves, vec![4, 3, 2, 0, 1]);
    assert!(!c.from_rev_swhid);

    let err = |list: &[&str]| seed_columns(&names(list)).err();
    assert_eq!(err(&["commit_id", "rel_path", "bin", "id"]), Some(MissingColumn::Repo));
    assert_eq!(err(&["repo", "rel_path", "bin", "id"]), Some(MissingColumn::CommitId));
    assert_eq!(err(&["repo", "commit_id", "bin", "id"]), Some(MissingColumn::RelPath));
    assert_eq!(err(&["repo", "commit_id", "rel_path", "id"]), Some(MissingColumn::Bin));
    assert_eq!(
        err(&["repo", "commit_id", "rel_path", "bin"]),
        Some(MissingColumn::RevSwhidAndId)
    );
}

#[test]
fn columns_of_the_output() {
    let n = names(&["rev_swhid", "bin", "origin_url", "id", "rel_path", "commit_id", "repo"]);
    let c = output_columns(&n).ok().unwrap();
    assert_eq!(c.leaves, vec![6, 5, 4, 3, 2, 0]);
    assert_eq!(
        (c.rev_swhid, c.origin_url, c.id, c.rel_path, c.commit_id, c.repo),
        (0, 1, 2, 3, 4, 5)
    );

    let all = ["repo", "commit_id", "rel_path", "id", "origin_url", "rev_swhid"];
    let missing = [
        MissingColumn::Repo,
        MissingColumn::CommitId,
        MissingColumn::RelPath,
        MissingColumn::Id,
        MissingColumn::OriginUrl,
        MissingColumn::RevSwhid,
    ];
    for i in 0..all.len() {
        let mut list = all.to_vec();
        list.remove(i);
        assert_eq!(output_columns(&names(&list)).err(), Some(missing[i]));
    }
}

fn row(tag: &str) -> OutRow {
    OutRow {
        repo: format!("repo-{tag}"),
        commit_id: format!("commit-{tag}"),
        rel_path: format!("path-{tag}"),
        rev_swhid: format!("rev-{tag}"),
        origin_url: format!("url-{tag}"),
        bin: format!("bin-{tag}"),
    }
}

#[test]
fn candidates_in_columns() {
    let c = cands_columns(&vec![vec![row("a"), row("b")], vec![], vec![row("c")]]);
    assert_eq!(c.repo, names(&["repo-a", "repo-b", "repo-c"]));
    assert_eq!(c.commit_id, names(&["commit-a", "commit-b", "commit-c"]));
    assert_eq!(c.rel_path, names(&["path-a", "path-b", "path-c"]));
    assert_eq!(c.id, names(&["rev-a", "rev-b", "rev-c"]));
    assert_eq!(c.origin_url, names(&["url-a", "url-b", "url-c"]));
    assert_eq!(c.rev_swhid, names(&["rev-a", "rev-b", "rev-c"]));
    assert_eq!(c.file_path, names(&["path-a", "path-b", "path-c"]));
    assert_eq!(c.bin, names(&["bin-a", "bin-b", "bin-c"]));
}

#[test]
fn chunks_of_the_candidates() {
    let chunks = |n: usize| -> Vec<(usize, usize)> {
        cands_chunks(n).iter().map(|c| (c.start, c.end)).collect()
    };
    assert_eq!(chunks(0), vec![(0, 0)]);
    assert_eq!(chunks(1), vec![(0, 1)]);
    assert_eq!(chunks(1_000_000), vec![(0, 1_000_000)]);
    assert_eq!(chunks(1_000_001), vec![(0, 1_000_000), (1_000_000, 1_000_001)]);
    assert_eq!(chunks(2_000_000), vec![(0, 1_000_000), (1_000_000, 2_000_000)]);
}

#[test]
fn fields_of_the_candidates() {
    assert_eq!(
        cands_fields().join(" "),
        "repo commit_id rel_path id origin_url rev_swhid file_path bin"
    );
}

#[test]
fn cells_stand_in_the_order_of_the_fields() {
    let fields = output_fields();
    assert_eq!(
        fields.join(" "),
        "repo commit_id rel_path id origin_url snapshot_swhid rev_swhid cnt_swhid qualified status"
    );
    let row = OutputRow {
        repo: "repo".to_string(),
        commit_id: "commit_id".to_string(),
        rel_path: "rel_path".to_string(),
        id: "id".to_string(),
        origin_url: "origin_url".to_string(),
        snapshot_swhid: "snapshot_swhid".to_string(),
        rev_swhid: "rev_swhid".to_string(),
        cnt_swhid: "cnt_swhid".to_string(),
        qualified: "qualified".to_string(),
        status: "status".to_string(),
    };
    assert_eq!(row.into_cells().to_vec(), fields.to_vec());
}
