use hnsw::{InsertContext, Link, SearchContext, SelectContext, VisitedSet};

#[test]
fn fresh_epoch_set_counts_everything_as_visited_until_reset() {
    let mut v = VisitedSet::epoch(4);
    assert!(v.is_visited(0));
    assert!(v.is_visited(3));
    assert!(v.is_visited(10));
    v.reset();
    for i in 0..12 {
        assert!(!v.is_visited(i));
    }
}

#[test]
fn marking_and_resetting_visits() {
    for mut v in [VisitedSet::epoch(4), VisitedSet::hash(4)] {
        v.reset();
        v.mark_visited(2);
        v.mark_visited(9);
        assert!(v.is_visited(2));
        assert!(v.is_visited(9));
        assert!(!v.is_visited(3));
        v.reset();
        assert!(!v.is_visited(2));
        assert!(!v.is_visited(9));
        v.mark_visited(3);
        assert!(v.is_visited(3));
        assert!(!v.is_visited(2));
    }
}

#[test]
fn many_resets_never_resurrect_visits() {
    let mut v = VisitedSet::epoch(3);
    for round in 0..1000usize {
        v.reset();
        assert!(!v.is_visited(round % 3));
        v.mark_visited(round % 3);
        assert!(v.is_visited(round % 3));
    }
}

#[test]
fn search_context_consumes_best_in_order() {
    let mut ctx = SearchContext::reusable_with_capacity(8, 4);
    ctx.best = vec![
        Link { node_index: 1, distance: 2 },
        Link { node_index: 0, distance: 5 },
    ];
    let res = ctx.consume_best();
    assert_eq!(res, vec![Link { node_index: 1, distance: 2 }, Link { node_index: 0, distance: 5 }]);
    assert!(ctx.best.is_empty());
    assert_eq!(ctx.results, res);
    ctx.clear();
    assert!(ctx.results.is_empty() && ctx.frontier.is_empty());
}

#[test]
fn select_context_drains_the_queue_nearest_first() {
    let mut ctx = SelectContext::reusable(8, 4);
    ctx.pq = vec![
        Link { node_index: 3, distance: 9 },
        Link { node_index: 1, distance: 4 },
        Link { node_index: 2, distance: 1 },
    ];
    let out = ctx.consume_pq();
    assert_eq!(out.iter().map(|l| l.node_index).collect::<Vec<_>>(), vec![2, 1, 3]);
    assert!(ctx.pq.is_empty());
    ctx.best.push(Link { node_index: 5, distance: 0 });
    assert_eq!(ctx.consume_best(), vec![Link { node_index: 5, distance: 0 }]);
    ctx.clear();
    assert!(ctx.best.is_empty() && ctx.discarded.is_empty());
}

#[test]
fn contexts_start_empty() {
    let s = SearchContext::reusable(10);
    assert!(s.frontier.is_empty() && s.best.is_empty() && s.results.is_empty());
    let s = SearchContext::one_off(3);
    assert!(s.best.is_empty());
    let i = InsertContext::reusable(10, 32, 8);
    assert!(i.select_ctx.pq.is_empty() && i.search_ctx.best.is_empty());
    let i = InsertContext::one_off(32, 8);
    assert!(i.select_ctx.best.is_empty());
}

#[test]
fn consume_best_puts_best_in_front_of_earlier_results_reversed() {
    let mut ctx = SearchContext::one_off(4);
    ctx.results = vec![Link { node_index: 1, distance: 1 }, Link { node_index: 2, distance: 2 }];
    ctx.best = vec![Link { node_index: 7, distance: 3 }, Link { node_index: 8, distance: 4 }];
    let res = ctx.consume_best();
    let ids: Vec<usize> = res.iter().map(|l| l.node_index).collect();
    assert_eq!(ids, vec![7, 8, 2, 1]);
    assert_eq!(ctx.results, res);
    assert!(ctx.best.is_empty());
}

#[test]
fn visited_sets_behave_as_finite_sets_over_call_sequences() {
    for mut v in [VisitedSet::epoch(3), VisitedSet::hash(3)] {
        v.reset();
        let marks = [4usize, 0, 9, 4, 17];
        for (i, &m) in marks.iter().enumerate() {
            v.mark_visited(m);
            for x in 0..20usize {
                let expected = marks[..=i].contains(&x);
                assert_eq!(v.is_visited(x), expected);
                assert_eq!(v.is_visited(x), expected);
            }
        }
        v.reset();
        for x in 0..20usize {
            assert!(!v.is_visited(x));
        }
    }
}
