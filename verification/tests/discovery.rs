use acdx::discovery::{candidate, discover_step, Probe, Step, CANDIDATE_COUNT};

#[test]
fn candidates_come_in_precedence_order() {
    let names: Vec<&str> = (0..CANDIDATE_COUNT).map(candidate).collect();
    assert_eq!(
        names,
        vec![
            "COMMANDS.adoc",
            "COMMANDS.asciidoc",
            "DEVELOP.adoc",
            "DEVELOP.asciidoc",
            "README.adoc",
            "README.asciidoc",
        ]
    );
}

#[test]
fn a_present_candidate_is_the_answer() {
    assert_eq!(discover_step(Probe::Candidate(0), true), Step::Found(0));
    assert_eq!(discover_step(Probe::Candidate(4), true), Step::Found(4));
}

#[test]
fn a_missing_candidate_asks_for_the_next() {
    assert_eq!(
        discover_step(Probe::Candidate(2), false),
        Step::Ask(Probe::Candidate(3))
    );
}

#[test]
fn after_the_last_candidate_the_repo_marker_is_asked() {
    assert_eq!(
        discover_step(Probe::Candidate(5), false),
        Step::Ask(Probe::RepoMarker)
    );
}

#[test]
fn the_repo_root_ends_the_search() {
    assert_eq!(discover_step(Probe::RepoMarker, true), Step::NotFound);
    assert_eq!(
        discover_step(Probe::RepoMarker, false),
        Step::Ask(Probe::Parent)
    );
}

#[test]
fn moving_up_restarts_the_candidates_and_the_top_ends_the_search() {
    assert_eq!(
        discover_step(Probe::Parent, true),
        Step::Ask(Probe::Candidate(0))
    );
    assert_eq!(discover_step(Probe::Parent, false), Step::NotFound);
}

/// Drives the steps over a simulated tree: `dirs[d]` lists, for the
/// directory `d` levels up, the candidate indices present and whether it
/// holds `.git`.
fn simulate(dirs: &[(&[usize], bool)]) -> Option<(usize, usize)> {
    let mut d = 0;
    let mut probe = Probe::Candidate(0);
    loop {
        let answer = match probe {
            Probe::Candidate(i) => dirs[d].0.contains(&i),
            Probe::RepoMarker => dirs[d].1,
            Probe::Parent => {
                if d + 1 < dirs.len() {
                    d += 1;
                    true
                } else {
                    false
                }
            }
        };
        match discover_step(probe, answer) {
            Step::Ask(next) => probe = next,
            Step::Found(i) => return Some((d, i)),
            Step::NotFound => return None,
        }
    }
}

#[test]
fn the_innermost_directory_wins_and_precedence_decides_within_it() {
    let found = simulate(&[(&[], false), (&[5, 2], false), (&[0], false)]);
    assert_eq!(found, Some((1, 2)));
}

#[test]
fn the_search_stops_at_the_repository_root() {
    let found = simulate(&[(&[], false), (&[], true), (&[0], false)]);
    assert_eq!(found, None);
}

#[test]
fn the_repository_root_itself_is_searched() {
    let found = simulate(&[(&[], false), (&[3], true), (&[0], false)]);
    assert_eq!(found, Some((1, 3)));
}

#[test]
fn the_search_stops_at_the_file_system_root() {
    let found = simulate(&[(&[], false), (&[], false)]);
    assert_eq!(found, None);
}
