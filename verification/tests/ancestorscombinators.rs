use std::collections::{BTreeMap, BTreeSet, HashSet};

use revset::{
    BonsaiNodeStream, ChangesetId, DifferenceOfUnionsOfAncestorsNodeStream, Excluded, Generation,
    NodeFrontier, Polled, Query, Source, StreamError,
};

/// The parents of each node of a repository.
struct Repo {
    parents: BTreeMap<ChangesetId, Vec<ChangesetId>>,
}

fn string_to_bonsai(hash: &str) -> ChangesetId {
    assert_eq!(hash.len(), 40);
    (
        u128::from_str_radix(&hash[..8], 16).unwrap(),
        u128::from_str_radix(&hash[8..], 16).unwrap(),
    )
}

impl Repo {
    fn new(edges: &[(&str, &[&str])]) -> Repo {
        Repo {
            parents: edges
                .iter()
                .map(|(node, parents)| {
                    (
                        string_to_bonsai(node),
                        parents.iter().map(|p| string_to_bonsai(p)).collect(),
                    )
                })
                .collect(),
        }
    }

    fn numbered(edges: &[&[u128]]) -> Repo {
        Repo {
            parents: edges
                .iter()
                .enumerate()
                .map(|(i, parents)| ((0, i as u128), parents.iter().map(|p| (0, *p)).collect()))
                .collect(),
        }
    }

    fn linear() -> Repo {
        Repo::new(&[
            ("2d7d4ba9ce0a6ffd222de7785b249ead9c51c536", &[]),
            (
                "3e0e761030db6e479a7fb58b12881883f9f8c63f",
                &["2d7d4ba9ce0a6ffd222de7785b249ead9c51c536"],
            ),
            (
                "607314ef579bd2407752361ba1b0c1729d08b281",
                &["3e0e761030db6e479a7fb58b12881883f9f8c63f"],
            ),
            (
                "d0a361e9022d226ae52f689667bd7d212a19cfe0",
                &["607314ef579bd2407752361ba1b0c1729d08b281"],
            ),
            (
                "cb15ca4a43a59acff5388cea9648c162afde8372",
                &["d0a361e9022d226ae52f689667bd7d212a19cfe0"],
            ),
            (
                "eed3a8c0ec67b6a6fe2eb3543334df3f0b4f202b",
                &["cb15ca4a43a59acff5388cea9648c162afde8372"],
            ),
            (
                "0ed509bf086fadcb8a8a5384dc3b550729b0fc17",
                &["eed3a8c0ec67b6a6fe2eb3543334df3f0b4f202b"],
            ),
            (
                "a9473beb2eb03ddb1cccc3fbaeb8a4820f9cd157",
                &["0ed509bf086fadcb8a8a5384dc3b550729b0fc17"],
            ),
        ])
    }

    fn merge_uneven() -> Repo {
        Repo::new(&[
            ("15c40d0abc36d47fb51c8eaec51ac7aad31f669c", &[]),
            (
                "3cda5c78aa35f0f5b09780d971197b51cad4613a",
                &["15c40d0abc36d47fb51c8eaec51ac7aad31f669c"],
            ),
            (
                "1d8a907f7b4bf50c6a09c16361e2205047ecc5e5",
                &["3cda5c78aa35f0f5b09780d971197b51cad4613a"],
            ),
            (
                "16839021e338500b3cf7c9b871c8a07351697d68",
                &["1d8a907f7b4bf50c6a09c16361e2205047ecc5e5"],
            ),
            (
                "d7542c9db7f4c77dab4b315edd328edf1514952f",
                &["15c40d0abc36d47fb51c8eaec51ac7aad31f669c"],
            ),
            (
                "b65231269f651cfe784fd1d97ef02a049a37b8a0",
                &["d7542c9db7f4c77dab4b315edd328edf1514952f"],
            ),
            (
                "4f7f3fd428bec1a48f9314414b063c706d9c1aed",
                &["b65231269f651cfe784fd1d97ef02a049a37b8a0"],
            ),
            (
                "795b8133cf375f6d68d27c6c23db24cd5d0cd00f",
                &["4f7f3fd428bec1a48f9314414b063c706d9c1aed"],
            ),
            (
                "bc7b4d0f858c19e2474b03e442b8495fd7aeef33",
                &["795b8133cf375f6d68d27c6c23db24cd5d0cd00f"],
            ),
            (
                "fc2cef43395ff3a7b28159007f63d6529d2f41ca",
                &["bc7b4d0f858c19e2474b03e442b8495fd7aeef33"],
            ),
            (
                "5d43888a3c972fe68c224f93d41b30e9f888df7c",
                &["fc2cef43395ff3a7b28159007f63d6529d2f41ca"],
            ),
            (
                "264f01429683b3dd8042cb3979e8bf37007118bc",
                &["5d43888a3c972fe68c224f93d41b30e9f888df7c"],
            ),
            (
                "d35b1875cdd1ed2c687e86f1604b9d7e989450cb",
                &[
                    "264f01429683b3dd8042cb3979e8bf37007118bc",
                    "16839021e338500b3cf7c9b871c8a07351697d68",
                ],
            ),
        ])
    }

    fn generation(&self, node: ChangesetId) -> Generation {
        1 + self.parents[&node]
            .iter()
            .map(|p| self.generation(*p))
            .max()
            .unwrap_or(0)
    }

    fn ancestors(&self, nodes: &[ChangesetId]) -> BTreeSet<ChangesetId> {
        let mut found = BTreeSet::new();
        let mut queue = nodes.to_vec();
        while let Some(node) = queue.pop() {
            if found.insert(node) {
                queue.extend(self.parents[&node].iter().copied());
            }
        }
        found
    }

    /// Moves the frontier down, one generation after the other.
    fn lca_hint(&self, mut frontier: NodeFrontier, generation: Generation) -> NodeFrontier {
        while frontier.max_gen() > Some(generation) {
            let (_, nodes) = frontier.remove_max_gen().unwrap();
            for node in nodes {
                for parent in &self.parents[&node] {
                    frontier.insert(*parent, self.generation(*parent));
                }
            }
        }
        frontier
    }

    /// Answers the query of one source; tells if there was one.
    fn answer(&self, stream: &mut BonsaiNodeStream, source: Source) -> bool {
        match stream.query(source) {
            Some(Query::Generation(node)) => {
                let res = stream.generation_fetched::<()>(source, Ok(self.generation(node)));
                assert_eq!(res, Ok(()));
                true
            }
            Some(Query::Parents(node)) => {
                let slot = match source {
                    Source::Pending(slot) => slot,
                    _ => panic!("parents are asked for in slots only"),
                };
                let res = stream.parents_fetched::<()>(slot, Ok(self.parents[&node].clone()));
                assert_eq!(res, Ok(()));
                true
            }
            None => false,
        }
    }

    fn answer_all(&self, stream: &mut BonsaiNodeStream, slots: usize) -> usize {
        let mut answered = 0;
        while self.answer(stream, Source::Hashes) {
            answered += 1;
        }
        while self.answer(stream, Source::Excludes) {
            answered += 1;
        }
        // The last slot first: the order does not matter.
        for slot in (0..slots).rev() {
            while self.answer(stream, Source::Pending(slot)) {
                answered += 1;
            }
        }
        answered
    }

    fn next(&self, stream: &mut BonsaiNodeStream, slots: &mut usize) -> Option<ChangesetId> {
        loop {
            match stream.poll() {
                Polled::Node { node, slot } => {
                    assert_eq!(
                        stream.query(Source::Pending(slot)),
                        Some(Query::Parents(node))
                    );
                    *slots = slot + 1;
                    return Some(node);
                }
                Polled::End => return None,
                Polled::LcaHint {
                    frontier,
                    generation,
                } => {
                    assert!(stream.awaits_hint());
                    assert!(matches!(stream.poll(), Polled::NotReady));
                    let hint = self.lca_hint(frontier, generation);
                    assert_eq!(stream.hint_ready::<()>(Ok(hint)), Ok(()));
                    assert!(!stream.awaits_hint());
                }
                Polled::NotReady => {
                    assert!(self.answer_all(stream, *slots) > 0);
                }
            }
        }
    }

    fn collect(&self, mut stream: BonsaiNodeStream) -> Vec<ChangesetId> {
        let mut nodes = vec![];
        let mut slots = 0;
        while let Some(node) = self.next(&mut stream, &mut slots) {
            nodes.push(node);
        }
        assert!(matches!(stream.poll(), Polled::End));
        nodes
    }
}

/// Checks that the stream gives the expected nodes, those of one generation in any order.
fn assert_changesets_sequence(repo: &Repo, hashes: Vec<ChangesetId>, stream: BonsaiNodeStream) {
    let mut stream = stream;
    let mut slots = 0;
    let mut received_hashes = HashSet::new();
    for expected in hashes {
        // If we pulled it in earlier, but didn't return it, return it now
        if received_hashes.remove(&expected) {
            continue;
        }
        let expected_generation = repo.generation(expected);
        // Keep pulling in hashes until we either find this one, or move on to a new generation
        loop {
            let hash = repo
                .next(&mut stream, &mut slots)
                .expect("Unexpected end of stream");
            if hash == expected {
                break;
            }
            assert_eq!(
                repo.generation(hash),
                expected_generation,
                "Did not receive {:?} before its generation was over",
                expected
            );
            received_hashes.insert(hash);
        }
    }
    assert!(received_hashes.is_empty(), "Too few nodes were expected");
    assert_eq!(
        repo.next(&mut stream, &mut slots),
        None,
        "Too many nodes were received"
    );
}

#[test]
fn empty_ancestors_combinators() {
    let repo = Repo::linear();

    let stream = DifferenceOfUnionsOfAncestorsNodeStream::new_union(vec![]);
    assert_changesets_sequence(&repo, vec![], stream);

    let excludes = vec![string_to_bonsai(
        "0ed509bf086fadcb8a8a5384dc3b550729b0fc17",
    )];
    let stream = DifferenceOfUnionsOfAncestorsNodeStream::new_with_excludes(vec![], excludes);
    assert_changesets_sequence(&repo, vec![], stream);
}

#[test]
fn linear_ancestors_with_excludes() {
    let repo = Repo::linear();
    let nodestream = DifferenceOfUnionsOfAncestorsNodeStream::new_with_excludes(
        vec![string_to_bonsai("a9473beb2eb03ddb1cccc3fbaeb8a4820f9cd157")],
        vec![string_to_bonsai("0ed509bf086fadcb8a8a5384dc3b550729b0fc17")],
    );
    assert_changesets_sequence(
        &repo,
        vec![string_to_bonsai("a9473beb2eb03ddb1cccc3fbaeb8a4820f9cd157")],
        nodestream,
    );
}

#[test]
fn linear_ancestors_with_excludes_empty() {
    let repo = Repo::linear();
    let nodestream = DifferenceOfUnionsOfAncestorsNodeStream::new_with_excludes(
        vec![string_to_bonsai("0ed509bf086fadcb8a8a5384dc3b550729b0fc17")],
        vec![string_to_bonsai("0ed509bf086fadcb8a8a5384dc3b550729b0fc17")],
    );
    assert_changesets_sequence(&repo, vec![], nodestream);
}

#[test]
fn ancestors_union() {
    let repo = Repo::merge_uneven();
    let nodestream = DifferenceOfUnionsOfAncestorsNodeStream::new_union(vec![
        string_to_bonsai("fc2cef43395ff3a7b28159007f63d6529d2f41ca"),
        string_to_bonsai("16839021e338500b3cf7c9b871c8a07351697d68"),
    ]);
    assert_changesets_sequence(
        &repo,
        vec![
            string_to_bonsai("fc2cef43395ff3a7b28159007f63d6529d2f41ca"),
            string_to_bonsai("bc7b4d0f858c19e2474b03e442b8495fd7aeef33"),
            string_to_bonsai("795b8133cf375f6d68d27c6c23db24cd5d0cd00f"),
            string_to_bonsai("4f7f3fd428bec1a48f9314414b063c706d9c1aed"),
            string_to_bonsai("16839021e338500b3cf7c9b871c8a07351697d68"),
            string_to_bonsai("1d8a907f7b4bf50c6a09c16361e2205047ecc5e5"),
            string_to_bonsai("b65231269f651cfe784fd1d97ef02a049a37b8a0"),
            string_to_bonsai("d7542c9db7f4c77dab4b315edd328edf1514952f"),
            string_to_bonsai("3cda5c78aa35f0f5b09780d971197b51cad4613a"),
            string_to_bonsai("15c40d0abc36d47fb51c8eaec51ac7aad31f669c"),
        ],
        nodestream,
    );
}

#[test]
fn merge_ancestors_from_merge_excludes() {
    let repo = Repo::merge_uneven();
    let nodestream = DifferenceOfUnionsOfAncestorsNodeStream::new_with_excludes(
        vec![string_to_bonsai("d35b1875cdd1ed2c687e86f1604b9d7e989450cb")],
        vec![
            string_to_bonsai("fc2cef43395ff3a7b28159007f63d6529d2f41ca"),
            string_to_bonsai("16839021e338500b3cf7c9b871c8a07351697d68"),
        ],
    );
    assert_changesets_sequence(
        &repo,
        vec![
            string_to_bonsai("d35b1875cdd1ed2c687e86f1604b9d7e989450cb"),
            string_to_bonsai("264f01429683b3dd8042cb3979e8bf37007118bc"),
            string_to_bonsai("5d43888a3c972fe68c224f93d41b30e9f888df7c"),
        ],
        nodestream,
    );
}

#[test]
fn merge_ancestors_from_merge_excludes_union() {
    let repo = Repo::merge_uneven();
    let nodestream = DifferenceOfUnionsOfAncestorsNodeStream::new_with_excludes(
        vec![string_to_bonsai("d35b1875cdd1ed2c687e86f1604b9d7e989450cb")],
        vec![string_to_bonsai("16839021e338500b3cf7c9b871c8a07351697d68")],
    );
    assert_changesets_sequence(
        &repo,
        vec![
            string_to_bonsai("d35b1875cdd1ed2c687e86f1604b9d7e989450cb"),
            string_to_bonsai("264f01429683b3dd8042cb3979e8bf37007118bc"),
            string_to_bonsai("5d43888a3c972fe68c224f93d41b30e9f888df7c"),
            string_to_bonsai("fc2cef43395ff3a7b28159007f63d6529d2f41ca"),
            string_to_bonsai("bc7b4d0f858c19e2474b03e442b8495fd7aeef33"),
            string_to_bonsai("795b8133cf375f6d68d27c6c23db24cd5d0cd00f"),
            string_to_bonsai("4f7f3fd428bec1a48f9314414b063c706d9c1aed"),
            string_to_bonsai("b65231269f651cfe784fd1d97ef02a049a37b8a0"),
            string_to_bonsai("d7542c9db7f4c77dab4b315edd328edf1514952f"),
        ],
        nodestream,
    );
}

#[test]
fn ancestors_of_one_node() {
    let repo = Repo::linear();
    let node = string_to_bonsai("607314ef579bd2407752361ba1b0c1729d08b281");
    assert_eq!(
        repo.collect(DifferenceOfUnionsOfAncestorsNodeStream::new(node)),
        vec![
            node,
            string_to_bonsai("3e0e761030db6e479a7fb58b12881883f9f8c63f"),
            string_to_bonsai("2d7d4ba9ce0a6ffd222de7785b249ead9c51c536"),
        ]
    );
}

/// Two merges of two branches: 0 <- 1, 2 <- 3, 4 (both merges of 1 and 2) <- 5.
fn criss_cross() -> Repo {
    Repo::numbered(&[&[], &[0], &[0], &[1, 2], &[1, 2], &[3, 4]])
}

#[test]
fn difference_in_every_small_case() {
    let repo = criss_cross();
    let all: Vec<ChangesetId> = repo.parents.keys().copied().collect();
    for wanted in 0..64u32 {
        for unwanted in 0..64u32 {
            let pick = |mask: u32| -> Vec<ChangesetId> {
                all.iter()
                    .enumerate()
                    .filter(|(i, _)| mask & (1 << i) != 0)
                    .map(|(_, n)| *n)
                    .collect()
            };
            let hashes = pick(wanted);
            let excludes = pick(unwanted);
            let got = repo.collect(DifferenceOfUnionsOfAncestorsNodeStream::new_with_excludes(
                hashes.clone(),
                excludes.clone(),
            ));
            let expected: BTreeSet<ChangesetId> = repo
                .ancestors(&hashes)
                .difference(&repo.ancestors(&excludes))
                .copied()
                .collect();
            assert_eq!(got.len(), expected.len());
            assert_eq!(got.iter().copied().collect::<BTreeSet<_>>(), expected);
            for pair in got.windows(2) {
                assert!(repo.generation(pair[0]) >= repo.generation(pair[1]));
            }
            let with_generations = |nodes: &[ChangesetId]| -> Vec<(ChangesetId, Generation)> {
                nodes.iter().map(|n| (*n, repo.generation(*n))).collect()
            };
            let same = repo.collect(
                DifferenceOfUnionsOfAncestorsNodeStream::new_with_excludes_gen_num(
                    with_generations(&hashes),
                    with_generations(&excludes),
                ),
            );
            assert_eq!(same, got);
        }
    }
}

#[test]
fn greatest_node_of_a_generation_comes_first() {
    let repo = criss_cross();
    let ids: Vec<u128> = repo
        .collect(DifferenceOfUnionsOfAncestorsNodeStream::new((0, 5)))
        .iter()
        .map(|n| n.1)
        .collect();
    assert_eq!(ids, vec![5, 4, 3, 2, 1, 0]);

    let mut stream = DifferenceOfUnionsOfAncestorsNodeStream::new_with_excludes_gen_num(
        vec![((0, 9), 4), ((1, 0), 4), ((0, 3), 4), ((0, 3), 4)],
        vec![],
    );
    let mut nodes = vec![];
    while let Polled::Node { node, slot } = stream.poll() {
        assert_eq!(slot, nodes.len());
        nodes.push(node);
    }
    assert_eq!(nodes, vec![(1, 0), (0, 9), (0, 3)]);
}

#[test]
fn hint_is_asked_for_when_the_frontier_is_above() {
    // The node has generation 3, the excluded ones 3 and 7.
    let mut stream = DifferenceOfUnionsOfAncestorsNodeStream::new_with_excludes_gen_num(
        vec![((0, 1), 3)],
        vec![((0, 2), 7), ((0, 3), 3)],
    );
    match stream.poll() {
        Polled::LcaHint {
            frontier,
            generation,
        } => {
            assert_eq!(generation, 3);
            assert_eq!(frontier.max_gen(), Some(7));
            assert!(frontier.get(7).unwrap().contains(&(0, 2)));
            assert!(frontier.get(3).unwrap().contains(&(0, 3)));
            assert!(frontier.get(5).is_none());
        }
        _ => panic!("a hint has to be asked for"),
    }
    assert!(matches!(stream.poll(), Polled::NotReady));
    let hint = NodeFrontier::from_iter(vec![((0, 1), 3), ((0, 3), 3)]);
    assert_eq!(stream.hint_ready::<()>(Ok(hint)), Ok(()));
    assert!(matches!(stream.poll(), Polled::End));

    // No hint is needed where no excluded node is above.
    let mut stream = DifferenceOfUnionsOfAncestorsNodeStream::new_with_excludes_gen_num(
        vec![((0, 1), 3)],
        vec![((0, 3), 3)],
    );
    assert!(matches!(
        stream.poll(),
        Polled::Node {
            node: (0, 1),
            slot: 0
        }
    ));
    let mut stream = DifferenceOfUnionsOfAncestorsNodeStream::new_with_excludes_gen_num(
        vec![((0, 1), 3)],
        vec![((0, 3), 2)],
    );
    assert!(matches!(stream.poll(), Polled::Node { node: (0, 1), .. }));
}

#[test]
fn node_of_the_greatest_generation() {
    let mut stream = DifferenceOfUnionsOfAncestorsNodeStream::new_with_excludes_gen_num(
        vec![((0, 1), u64::MAX), ((0, 2), u64::MAX)],
        vec![((0, 2), u64::MAX)],
    );
    assert!(matches!(stream.poll(), Polled::Node { node: (0, 1), .. }));
    assert!(matches!(stream.poll(), Polled::NotReady));
}

#[test]
fn failed_generation_of_a_given_node_ends_the_stream() {
    for source in [Source::Hashes, Source::Excludes] {
        let mut stream = DifferenceOfUnionsOfAncestorsNodeStream::new_with_excludes(
            vec![(0, 1)],
            vec![(0, 2)],
        );
        assert!(matches!(stream.poll(), Polled::NotReady));
        assert_eq!(
            stream.generation_fetched(source, Err("no such node")),
            Err(StreamError::GenerationFetchFailed("no such node"))
        );
        assert_eq!(stream.query(Source::Hashes), None);
        assert_eq!(stream.query(Source::Excludes), None);
        assert!(matches!(stream.poll(), Polled::End));
        assert!(matches!(stream.poll(), Polled::End));
    }
}

#[test]
fn failed_fetch_of_parents_leaves_the_rest() {
    let repo = criss_cross();
    let mut stream = DifferenceOfUnionsOfAncestorsNodeStream::new_union(vec![(0, 3), (0, 4)]);
    repo.answer_all(&mut stream, 0);
    assert!(matches!(
        stream.poll(),
        Polled::Node {
            node: (0, 4),
            slot: 0
        }
    ));
    assert!(matches!(
        stream.poll(),
        Polled::Node {
            node: (0, 3),
            slot: 1
        }
    ));
    assert_eq!(
        stream.parents_fetched(0, Err(17)),
        Err(StreamError::ParentsFetchFailed(17))
    );
    assert_eq!(stream.query(Source::Pending(0)), None);
    // The first parent of the other node does not become known, the second one does.
    assert_eq!(
        stream.parents_fetched::<()>(1, Ok(vec![(0, 1), (0, 2)])),
        Ok(())
    );
    assert_eq!(
        stream.query(Source::Pending(1)),
        Some(Query::Generation((0, 1)))
    );
    assert_eq!(
        stream.generation_fetched(Source::Pending(1), Err(18)),
        Err(StreamError::GenerationFetchFailed(18))
    );
    assert!(matches!(stream.poll(), Polled::NotReady));
    assert_eq!(
        stream.query(Source::Pending(1)),
        Some(Query::Generation((0, 2)))
    );
    assert_eq!(
        stream.generation_fetched::<()>(Source::Pending(1), Ok(2)),
        Ok(())
    );
    let nodes = repo.collect(stream);
    assert_eq!(nodes, vec![(0, 2), (0, 0)]);
}

#[test]
fn failed_hint_fails_the_stream() {
    let mut stream = DifferenceOfUnionsOfAncestorsNodeStream::new_with_excludes_gen_num(
        vec![((0, 1), 1)],
        vec![((0, 2), 2)],
    );
    assert!(!stream.is_failed());
    assert!(matches!(
        stream.poll(),
        Polled::LcaHint { generation: 1, .. }
    ));
    assert_eq!(
        stream.hint_ready(Err("no index")),
        Err(StreamError::LcaHintFailed("no index"))
    );
    assert!(stream.is_failed());
    assert!(!stream.awaits_hint());
}

#[test]
fn nothing_is_given_before_all_parents_are_known() {
    let repo = criss_cross();
    let mut stream = DifferenceOfUnionsOfAncestorsNodeStream::new_union(vec![(0, 3), (0, 4)]);
    repo.answer_all(&mut stream, 0);
    assert!(matches!(stream.poll(), Polled::Node { node: (0, 4), .. }));
    // The parents of a node can become known while its generation is still being given out.
    while repo.answer(&mut stream, Source::Pending(0)) {}
    assert!(matches!(stream.poll(), Polled::Node { node: (0, 3), .. }));
    assert!(matches!(stream.poll(), Polled::NotReady));
    while repo.answer(&mut stream, Source::Pending(1)) {}
    assert!(matches!(
        stream.poll(),
        Polled::Node {
            node: (0, 2),
            slot: 0
        }
    ));
}

#[test]
fn hints_go_down_the_generations() {
    // A branch, 6, off a line of six nodes.
    let repo = Repo::numbered(&[&[], &[0], &[1], &[2], &[3], &[4], &[1]]);
    let mut stream =
        DifferenceOfUnionsOfAncestorsNodeStream::new_with_excludes(vec![(0, 6)], vec![(0, 5)]);
    let mut nodes = vec![];
    let mut hints = vec![];
    loop {
        match stream.poll() {
            Polled::Node { node, .. } => nodes.push(node),
            Polled::End => break,
            Polled::LcaHint {
                frontier,
                generation,
            } => {
                assert!(frontier.max_gen() > Some(generation));
                hints.push(generation);
                let hint = repo.lca_hint(frontier, generation);
                assert_eq!(stream.hint_ready::<()>(Ok(hint)), Ok(()));
            }
            Polled::NotReady => assert!(repo.answer_all(&mut stream, 1) > 0),
        }
    }
    assert_eq!(nodes, vec![(0, 6)]);
    assert_eq!(hints, vec![3, 2]);
}

#[test]
fn parents_are_asked_for_once_for_each_given_node() {
    let repo = criss_cross();
    let mut stream =
        DifferenceOfUnionsOfAncestorsNodeStream::new_with_excludes(vec![(0, 5)], vec![(0, 1)]);
    let mut given = vec![];
    let mut asked = vec![];
    loop {
        match stream.poll() {
            Polled::Node { node, .. } => given.push(node),
            Polled::End => break,
            Polled::LcaHint {
                frontier,
                generation,
            } => {
                let hint = repo.lca_hint(frontier, generation);
                assert_eq!(stream.hint_ready::<()>(Ok(hint)), Ok(()));
            }
            Polled::NotReady => {
                for source in [
                    Source::Hashes,
                    Source::Excludes,
                    Source::Pending(0),
                    Source::Pending(1),
                ] {
                    if let Some(Query::Parents(node)) = stream.query(source) {
                        asked.push(node);
                    }
                    repo.answer(&mut stream, source);
                }
            }
        }
    }
    assert_eq!(given, vec![(0, 5), (0, 4), (0, 3), (0, 2)]);
    asked.sort();
    given.sort();
    assert_eq!(asked, given);
}

#[test]
fn no_hint_is_asked_for_without_excludes() {
    let repo = criss_cross();
    let mut stream = DifferenceOfUnionsOfAncestorsNodeStream::new_union(vec![(0, 5), (0, 2)]);
    let mut given = 0;
    loop {
        match stream.poll() {
            Polled::Node { .. } => given += 1,
            Polled::End => break,
            Polled::LcaHint { .. } => panic!("there is nothing to exclude"),
            Polled::NotReady => assert!(repo.answer_all(&mut stream, 2) > 0),
        }
    }
    assert_eq!(given, 6);
}

#[test]
fn all_generations_are_taken_in_falling_order() {
    let mut stream = DifferenceOfUnionsOfAncestorsNodeStream::new_with_excludes_gen_num(
        vec![
            ((0, 1), 4),
            ((0, 2), 9),
            ((0, 3), 1),
            ((0, 4), 4),
            ((0, 5), u64::MAX),
        ],
        vec![],
    );
    let mut given = vec![];
    loop {
        match stream.poll() {
            Polled::Node { node, slot } => {
                // A node of a generation that has been turned to is the first of its slots again.
                given.push((node, slot));
                assert_eq!(stream.parents_fetched::<()>(slot, Ok(vec![])), Ok(()));
            }
            Polled::End => break,
            _ => panic!("nothing is waited for"),
        }
    }
    assert_eq!(
        given,
        vec![
            ((0, 5), 0),
            ((0, 2), 0),
            ((0, 4), 0),
            ((0, 1), 1),
            ((0, 3), 0),
        ]
    );
}

#[test]
fn one_hint_settles_a_generation() {
    for retries in 0..4 {
        let mut stream = DifferenceOfUnionsOfAncestorsNodeStream::new_with_excludes_gen_num(
            vec![((0, 1), 3), ((0, 2), 3), ((0, 3), 3)],
            vec![((0, 9), 7)],
        );
        assert!(matches!(
            stream.poll(),
            Polled::LcaHint { generation: 3, .. }
        ));
        for _ in 0..retries {
            assert!(matches!(stream.poll(), Polled::NotReady));
            assert!(stream.awaits_hint());
        }
        let hint = NodeFrontier::from_iter(vec![((0, 2), 3)]);
        assert_eq!(stream.hint_ready::<()>(Ok(hint)), Ok(()));
        assert!(matches!(stream.poll(), Polled::Node { node: (0, 3), .. }));
        assert!(matches!(stream.poll(), Polled::Node { node: (0, 1), .. }));
        assert!(matches!(stream.poll(), Polled::NotReady));
        assert!(!stream.awaits_hint());
    }
}

/// All nodes of the stream, where each hint keeps only those nodes of the frontier that are not
/// above, and one source is answered at a time: the last one that asks, or the first one.
fn collect_slowly(repo: &Repo, mut stream: BonsaiNodeStream, last: bool) -> Vec<ChangesetId> {
    let mut nodes = vec![];
    let mut waiting = None;
    loop {
        match stream.poll() {
            Polled::Node { node, .. } => nodes.push(node),
            Polled::End => return nodes,
            Polled::LcaHint {
                mut frontier,
                generation,
            } => {
                while frontier.max_gen() > Some(generation) {
                    frontier.remove_max_gen();
                }
                if last {
                    // The hint comes after the stream was polled again.
                    waiting = Some(frontier);
                } else {
                    assert_eq!(stream.hint_ready::<()>(Ok(frontier)), Ok(()));
                }
            }
            Polled::NotReady => {
                let mut sources = vec![Source::Hashes, Source::Excludes];
                sources.extend((0..3).map(Source::Pending));
                if last {
                    sources.reverse();
                }
                let answered = sources
                    .into_iter()
                    .any(|source| repo.answer(&mut stream, source));
                if !answered {
                    let hint = waiting.take().expect("a hint is waited for");
                    assert_eq!(stream.hint_ready::<()>(Ok(hint)), Ok(()));
                }
            }
        }
    }
}

#[test]
fn late_answers_do_not_change_the_nodes() {
    let repo = criss_cross();
    let all: Vec<ChangesetId> = repo.parents.keys().copied().collect();
    for wanted in &all {
        for other in &all {
            for unwanted in &all {
                let make = || {
                    DifferenceOfUnionsOfAncestorsNodeStream::new_with_excludes(
                        vec![*wanted, *other],
                        vec![*unwanted],
                    )
                };
                let late = collect_slowly(&repo, make(), true);
                let early = collect_slowly(&repo, make(), false);
                assert_eq!(late, early);
                // Whatever the hints, no node comes twice, and none before one of a greater
                // generation.
                for pair in late.windows(2) {
                    assert!(repo.generation(pair[0]) >= repo.generation(pair[1]));
                }
                let distinct: BTreeSet<ChangesetId> = late.iter().copied().collect();
                assert_eq!(distinct.len(), late.len());
            }
        }
    }
    // The hint that forgets what is above does not exclude the ancestors of 4.
    let stream =
        DifferenceOfUnionsOfAncestorsNodeStream::new_with_excludes(vec![(0, 2)], vec![(0, 4)]);
    assert_eq!(
        collect_slowly(&repo, stream, true),
        vec![(0, 2), (0, 0)]
    );
}

#[test]
fn excluded_are_the_ancestors_of_the_excludes() {
    let repo = criss_cross();
    let all: Vec<ChangesetId> = repo.parents.keys().copied().collect();
    for exclude in &all {
        let mut stream = DifferenceOfUnionsOfAncestorsNodeStream::from_generations(
            vec![],
            vec![(*exclude, repo.generation(*exclude))],
        );
        let mut hints = vec![];
        // The nodes are numbered so that none has a greater generation than a later one.
        for node in all.iter().rev() {
            let generation = repo.generation(*node);
            let excluded = loop {
                match stream.exclude_node(*node, generation) {
                    Excluded::Ready(excluded) => break excluded,
                    Excluded::LcaHint {
                        frontier,
                        generation,
                    } => {
                        hints.push(generation);
                        for _ in 0..3 {
                            let retry = stream.exclude_node(*node, generation);
                            assert!(matches!(retry, Excluded::NotReady));
                        }
                        let hint = repo.lca_hint(frontier, generation);
                        assert_eq!(stream.hint_ready::<()>(Ok(hint)), Ok(()));
                    }
                    Excluded::NotReady => panic!("no hint is waited for"),
                }
            };
            assert_eq!(excluded, repo.ancestors(&[*exclude]).contains(node));
            let again = stream.exclude_node(*node, generation);
            assert!(matches!(again, Excluded::Ready(same) if same == excluded));
        }
        for pair in hints.windows(2) {
            assert!(pair[0] > pair[1]);
        }
    }
}

#[test]
fn each_turn_takes_the_greatest_generation() {
    let nodes = vec![((0, 1), 4), ((0, 2), 9), ((0, 3), 1), ((0, 4), 4)];
    let expected = [(0, 2), (0, 4), (0, 3)];
    for turns in 1..=3 {
        let mut stream =
            DifferenceOfUnionsOfAncestorsNodeStream::from_generations(nodes.clone(), vec![]);
        for _ in 0..turns {
            stream.update_generation();
        }
        match stream.poll() {
            Polled::Node { node, slot } => {
                assert_eq!(node, expected[turns - 1]);
                assert_eq!(stream.parents_fetched::<()>(slot, Ok(vec![])), Ok(()));
            }
            _ => panic!("a generation was turned to"),
        }
        if turns == 3 {
            assert!(matches!(stream.poll(), Polled::End));
        }
    }
}

#[test]
fn failed_fetch_does_not_show_before_the_generation_is_over() {
    let mut stream = DifferenceOfUnionsOfAncestorsNodeStream::new_with_excludes_gen_num(
        vec![((0, 1), 3), ((0, 2), 3), ((0, 3), 3)],
        vec![],
    );
    assert!(matches!(stream.poll(), Polled::Node { node: (0, 3), .. }));
    assert_eq!(
        stream.parents_fetched(0, Err("gone")),
        Err(StreamError::ParentsFetchFailed("gone"))
    );
    assert!(matches!(
        stream.poll(),
        Polled::Node {
            node: (0, 2),
            slot: 1
        }
    ));
    assert!(matches!(
        stream.poll(),
        Polled::Node {
            node: (0, 1),
            slot: 2
        }
    ));
    // Only now are the other parents waited for.
    assert!(matches!(stream.poll(), Polled::NotReady));
}
