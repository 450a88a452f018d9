use memapi::{
    pymemprofile_add_allocation, pymemprofile_dump_peak_to_flamegraph,
    pymemprofile_finish_call, pymemprofile_free_allocation, pymemprofile_reset,
    pymemprofile_start_call, Callstack, CommandProcessor,
};

fn report(p: &CommandProcessor) -> String {
    String::from_utf8(pymemprofile_dump_peak_to_flamegraph(p)).unwrap()
}

#[test]
fn single_call_reports_its_bytes() {
    let mut p = CommandProcessor::new(16);
    let mut s = Callstack::new();
    pymemprofile_start_call(&mut p, &mut s, 0, "m", "f", 1);
    pymemprofile_add_allocation(&mut p, &s, 0x1000, 100, 1);
    pymemprofile_finish_call(&mut s);
    assert_eq!(p.peak_bytes(), 100);
    assert_eq!(report(&p), "m.f:1 100\n");
}

#[test]
fn peak_keeps_both_paths_after_frees() {
    let mut p = CommandProcessor::new(16);
    let mut s = Callstack::new();
    pymemprofile_start_call(&mut p, &mut s, 0, "m", "a", 10);
    pymemprofile_add_allocation(&mut p, &s, 0x10, 100, 11);
    pymemprofile_finish_call(&mut s);
    pymemprofile_start_call(&mut p, &mut s, 0, "m", "b", 20);
    pymemprofile_add_allocation(&mut p, &s, 0x20, 50, 21);
    pymemprofile_finish_call(&mut s);
    assert_eq!(p.total_live_bytes(), 150);
    pymemprofile_free_allocation(&mut p, 0x10);
    pymemprofile_free_allocation(&mut p, 0x20);
    assert_eq!(p.total_live_bytes(), 0);
    assert_eq!(p.peak_bytes(), 150);
    assert_eq!(report(&p), "m.a:11 100\nm.b:21 50\n");
}

#[test]
fn stale_address_is_retired_before_reuse() {
    let mut p = CommandProcessor::new(16);
    let s = Callstack::new();
    pymemprofile_add_allocation(&mut p, &s, 0x40, 100, 1);
    pymemprofile_add_allocation(&mut p, &s, 0x40, 30, 1);
    assert_eq!(p.total_live_bytes(), 30);
    assert_eq!(p.peak_bytes(), 100);
    pymemprofile_free_allocation(&mut p, 0x40);
    assert_eq!(p.total_live_bytes(), 0);
}

#[test]
fn freeing_unknown_address_changes_nothing() {
    let mut p = CommandProcessor::new(16);
    let s = Callstack::new();
    pymemprofile_add_allocation(&mut p, &s, 0x40, 7, 1);
    pymemprofile_free_allocation(&mut p, 0x999);
    assert_eq!(p.total_live_bytes(), 7);
    assert_eq!(p.peak_bytes(), 7);
    assert_eq!(p.lost_events(), 0);
}

#[test]
fn live_total_is_sum_of_unfreed_sizes() {
    let mut p = CommandProcessor::new(16);
    let s = Callstack::new();
    pymemprofile_add_allocation(&mut p, &s, 1, 10, 1);
    pymemprofile_add_allocation(&mut p, &s, 2, 20, 1);
    pymemprofile_add_allocation(&mut p, &s, 3, 30, 1);
    pymemprofile_free_allocation(&mut p, 2);
    assert_eq!(p.total_live_bytes(), 40);
    pymemprofile_add_allocation(&mut p, &s, 4, 5, 1);
    assert_eq!(p.total_live_bytes(), 45);
    assert_eq!(p.peak_bytes(), 60);
}

#[test]
fn nested_calls_fold_into_one_line() {
    let mut p = CommandProcessor::new(16);
    let mut s = Callstack::new();
    pymemprofile_start_call(&mut p, &mut s, 0, "app", "main", 3);
    pymemprofile_start_call(&mut p, &mut s, 7, "lib", "load", 12);
    pymemprofile_add_allocation(&mut p, &s, 0x1, 4096, 15);
    pymemprofile_finish_call(&mut s);
    pymemprofile_add_allocation(&mut p, &s, 0x2, 8, 9);
    assert_eq!(report(&p), "app.main:7;lib.load:15 4096\napp.main:9 8\n");
}

#[test]
fn same_path_accumulates() {
    let mut p = CommandProcessor::new(16);
    let mut s = Callstack::new();
    pymemprofile_start_call(&mut p, &mut s, 0, "m", "f", 1);
    pymemprofile_add_allocation(&mut p, &s, 0x1, 10, 2);
    pymemprofile_add_allocation(&mut p, &s, 0x2, 15, 2);
    assert_eq!(report(&p), "m.f:2 25\n");
}

#[test]
fn peak_ties_keep_first_snapshot() {
    let mut p = CommandProcessor::new(16);
    let mut s = Callstack::new();
    pymemprofile_start_call(&mut p, &mut s, 0, "m", "f", 1);
    pymemprofile_add_allocation(&mut p, &s, 0x1, 10, 1);
    pymemprofile_free_allocation(&mut p, 0x1);
    pymemprofile_add_allocation(&mut p, &s, 0x2, 10, 2);
    assert_eq!(p.peak_bytes(), 10);
    assert_eq!(report(&p), "m.f:1 10\n");
}

#[test]
fn peak_never_decreases() {
    let mut p = CommandProcessor::new(16);
    let s = Callstack::new();
    let mut last = 0;
    let sizes = [5usize, 3, 9, 1, 12, 2];
    for (i, size) in sizes.iter().enumerate() {
        pymemprofile_add_allocation(&mut p, &s, 100 + i, *size, 1);
        if i % 2 == 1 {
            pymemprofile_free_allocation(&mut p, 100 + i - 1);
        }
        assert!(p.peak_bytes() >= last);
        assert!(p.peak_bytes() >= p.total_live_bytes());
        last = p.peak_bytes();
    }
    assert_eq!(last, 18);
}

#[test]
fn snapshot_sums_to_peak() {
    let mut p = CommandProcessor::new(16);
    let mut s = Callstack::new();
    pymemprofile_start_call(&mut p, &mut s, 0, "m", "a", 1);
    pymemprofile_add_allocation(&mut p, &s, 0x1, 30, 1);
    pymemprofile_start_call(&mut p, &mut s, 2, "m", "b", 5);
    pymemprofile_add_allocation(&mut p, &s, 0x2, 12, 6);
    pymemprofile_free_allocation(&mut p, 0x1);
    let text = report(&p);
    let sum: usize = text
        .lines()
        .map(|l| l.rsplit(' ').next().unwrap().parse::<usize>().unwrap())
        .sum();
    assert_eq!(sum, p.peak_bytes());
    assert_eq!(sum, 42);
}

#[test]
fn reset_then_dump_is_empty() {
    let mut p = CommandProcessor::new(16);
    let mut s = Callstack::new();
    pymemprofile_start_call(&mut p, &mut s, 0, "m", "f", 1);
    pymemprofile_add_allocation(&mut p, &s, 0x1, 10, 1);
    pymemprofile_reset(&mut p);
    assert_eq!(report(&p), "");
    assert_eq!(p.total_live_bytes(), 0);
    assert_eq!(p.peak_bytes(), 0);
}

#[test]
fn reset_twice_equals_once() {
    let mut p = CommandProcessor::new(16);
    let mut s = Callstack::new();
    pymemprofile_start_call(&mut p, &mut s, 0, "m", "f", 1);
    pymemprofile_add_allocation(&mut p, &s, 0x1, 10, 1);
    pymemprofile_reset(&mut p);
    let once = (report(&p), p.total_live_bytes(), p.peak_bytes(), p.lost_events());
    pymemprofile_reset(&mut p);
    let twice = (report(&p), p.total_live_bytes(), p.peak_bytes(), p.lost_events());
    assert_eq!(once, twice);
    pymemprofile_add_allocation(&mut p, &s, 0x2, 3, 4);
    assert_eq!(report(&p), "m.f:4 3\n");
}

#[test]
fn dumps_are_identical() {
    let mut p = CommandProcessor::new(16);
    let mut s = Callstack::new();
    pymemprofile_start_call(&mut p, &mut s, 0, "x", "y", 1);
    pymemprofile_add_allocation(&mut p, &s, 0x1, 123456789, 65535);
    let a = pymemprofile_dump_peak_to_flamegraph(&p);
    let b = pymemprofile_dump_peak_to_flamegraph(&p);
    assert_eq!(a, b);
    assert_eq!(String::from_utf8(a).unwrap(), "x.y:65535 123456789\n");
}

#[test]
fn empty_report_before_any_allocation() {
    let p = CommandProcessor::new(4);
    assert_eq!(report(&p), "");
    assert_eq!(p.peak_bytes(), 0);
}

#[test]
fn allocation_without_frames_has_empty_path() {
    let mut p = CommandProcessor::new(4);
    let s = Callstack::new();
    pymemprofile_add_allocation(&mut p, &s, 0x1, 9, 1);
    assert_eq!(report(&p), " 9\n");
}

#[test]
fn full_ledger_drops_and_counts() {
    let mut p = CommandProcessor::new(2);
    let s = Callstack::new();
    pymemprofile_add_allocation(&mut p, &s, 1, 10, 1);
    pymemprofile_add_allocation(&mut p, &s, 2, 10, 1);
    pymemprofile_add_allocation(&mut p, &s, 3, 10, 1);
    assert_eq!(p.total_live_bytes(), 20);
    assert_eq!(p.lost_events(), 1);
    pymemprofile_add_allocation(&mut p, &s, 2, 5, 1);
    assert_eq!(p.total_live_bytes(), 15);
    assert_eq!(p.lost_events(), 1);
}

#[test]
fn overflowing_total_is_dropped() {
    let mut p = CommandProcessor::new(4);
    let s = Callstack::new();
    pymemprofile_add_allocation(&mut p, &s, 1, usize::MAX, 1);
    pymemprofile_add_allocation(&mut p, &s, 2, 1, 1);
    assert_eq!(p.total_live_bytes(), usize::MAX);
    assert_eq!(p.lost_events(), 1);
}

#[test]
fn stack_from_another_processor_is_dropped() {
    let mut other = CommandProcessor::new(4);
    let mut s = Callstack::new();
    pymemprofile_start_call(&mut other, &mut s, 0, "m", "f", 1);
    let mut p = CommandProcessor::new(4);
    assert!(!p.knows_stack(&s));
    pymemprofile_add_allocation(&mut p, &s, 1, 10, 1);
    assert_eq!(p.total_live_bytes(), 0);
    assert_eq!(p.lost_events(), 1);
}

#[test]
fn finish_call_on_empty_stack_is_ignored() {
    let mut s = Callstack::new();
    pymemprofile_finish_call(&mut s);
    assert_eq!(s.depth(), 0);
}

#[test]
fn functions_are_interned_once() {
    let mut p = CommandProcessor::new(4);
    let mut s = Callstack::new();
    pymemprofile_start_call(&mut p, &mut s, 0, "m", "f", 1);
    pymemprofile_start_call(&mut p, &mut s, 2, "m", "f", 3);
    assert_eq!(s.frame(0).function, s.frame(1).function);
    assert_eq!(s.frame(0).line, 1);
    assert_eq!(s.frame(1).caller_line, 2);
    pymemprofile_start_call(&mut p, &mut s, 4, "m", "g", 5);
    assert_ne!(s.frame(1).function, s.frame(2).function);
}

#[test]
fn aggregates_cover_subtrees() {
    let mut p = CommandProcessor::new(16);
    let mut s = Callstack::new();
    pymemprofile_start_call(&mut p, &mut s, 0, "m", "outer", 1);
    pymemprofile_add_allocation(&mut p, &s, 0x1, 7, 2);
    pymemprofile_start_call(&mut p, &mut s, 3, "m", "inner", 10);
    pymemprofile_add_allocation(&mut p, &s, 0x2, 11, 11);
    pymemprofile_finish_call(&mut s);
    pymemprofile_start_call(&mut p, &mut s, 4, "m", "other", 20);
    pymemprofile_add_allocation(&mut p, &s, 0x3, 13, 21);
    pymemprofile_finish_call(&mut s);
    pymemprofile_free_allocation(&mut p, 0x1);
    assert_eq!(p.node_aggregate_bytes(0), p.total_live_bytes());
    assert_eq!(p.total_live_bytes(), 24);
    let n = p.nodes();
    for k in 0..n {
        let mut children = 0;
        for c in 1..n {
            if p.node_parent(c) == k && c != k {
                children += p.node_aggregate_bytes(c);
            }
        }
        assert_eq!(p.node_aggregate_bytes(k), p.node_own_bytes(k) + children);
    }
}

#[test]
fn many_functions_keep_distinct_ids() {
    let mut p = CommandProcessor::new(64);
    let mut s = Callstack::new();
    let names = ["a", "b", "ab", "ba", "", "a.b"];
    let mut ids = Vec::new();
    for m in names.iter() {
        for f in names.iter() {
            pymemprofile_start_call(&mut p, &mut s, 0, m, f, 1);
            ids.push(s.frame(s.depth() - 1).function);
            pymemprofile_finish_call(&mut s);
        }
    }
    let mut sorted = ids.clone();
    sorted.sort();
    sorted.dedup();
    assert_eq!(sorted.len(), ids.len());
    pymemprofile_start_call(&mut p, &mut s, 0, "ab", "", 1);
    assert_eq!(s.frame(0).function, ids[2 * names.len() + 4]);
}

#[test]
fn call_and_return_restore_the_stack() {
    let mut p = CommandProcessor::new(4);
    let mut s = Callstack::new();
    pymemprofile_start_call(&mut p, &mut s, 0, "m", "f", 1);
    let before = (s.depth(), s.frame(0));
    pymemprofile_start_call(&mut p, &mut s, 7, "m", "g", 3);
    pymemprofile_finish_call(&mut s);
    assert_eq!((s.depth(), s.frame(0)), before);
    pymemprofile_add_allocation(&mut p, &s, 0x1, 5, 1);
    assert_eq!(report(&p), "m.f:1 5\n");
}

#[test]
fn equal_paths_share_one_line() {
    let mut p = CommandProcessor::new(8);
    let mut s = Callstack::new();
    pymemprofile_start_call(&mut p, &mut s, 0, "m", "f", 1);
    pymemprofile_start_call(&mut p, &mut s, 4, "m", "g", 9);
    pymemprofile_add_allocation(&mut p, &s, 0x1, 5, 10);
    pymemprofile_finish_call(&mut s);
    pymemprofile_start_call(&mut p, &mut s, 4, "m", "g", 9);
    pymemprofile_add_allocation(&mut p, &s, 0x2, 6, 10);
    let nodes = p.nodes();
    pymemprofile_add_allocation(&mut p, &s, 0x3, 1, 10);
    assert_eq!(p.nodes(), nodes);
    assert_eq!(report(&p), "m.f:4;m.g:10 12\n");
}
