use memorytracking::callstack::{CallSiteId, Callstack};
use memorytracking::report::{
    directory_step, file_contents, flamegraph_options, DirectoryStep,
};
use memorytracking::tracker::{AllocationTracker, OOM_EXIT_STATUS};

/// A tracker with 300 bytes at f, and with 200 bytes outside of any call that are freed again.
fn tracker() -> AllocationTracker {
    let mut tracker = AllocationTracker::new("/default".to_string());
    let f = tracker.add_function("a.py".to_string(), "f".to_string());
    let cs = Callstack::from_vec(vec![CallSiteId::new(f, 12)]);
    let a = tracker.get_callstack_id(&cs);
    let b = tracker.get_callstack_id(&Callstack::new());
    tracker.add_allocation(1, 300, a);
    tracker.add_allocation(2, 200, b);
    tracker.free_allocation(2);
    tracker
}

#[test]
fn lines_tell_of_the_peak_or_of_now() {
    let mut tracker = tracker();
    let mut peak = tracker.to_lines(true, false);
    peak.sort();
    assert_eq!(peak, vec!["[No Python stack] 200", "a.py:12 (f) 300"]);
    assert_eq!(tracker.to_lines(false, false), vec!["a.py:12 (f) 300"]);
    assert_eq!(
        tracker.to_lines(false, true),
        vec!["a.py:12 (f);TB@@a.py:12@@TB 300"]
    );
}

#[test]
fn lines_follow_the_entries() {
    let tracker = tracker();
    assert_eq!(
        tracker.lines_for(&vec![(1, 5), (0, 6), (1, 7)], false),
        vec!["[No Python stack] 5", "a.py:12 (f) 6", "[No Python stack] 7"]
    );
}

#[test]
fn dump_of_the_peak() {
    let mut dump = tracker().dump_peak_to_flamegraph("/tmp/out");
    assert_eq!(dump.directory, "/tmp/out");
    assert_eq!(dump.raw_filename, "peak-memory.prof");
    assert_eq!(dump.svg_filename, "peak-memory.svg");
    assert_eq!(dump.reversed_svg_filename, "peak-memory-reversed.svg");
    assert_eq!(dump.peak_bytes, 500);
    assert_eq!(dump.title, "Peak Tracked Memory Usage");
    assert!(dump.to_be_post_processed);
    dump.lines.sort();
    assert_eq!(
        dump.lines,
        vec!["[No Python stack] 200", "a.py:12 (f);TB@@a.py:12@@TB 300"]
    );
}

#[test]
fn dump_when_out_of_memory() {
    let mut tracker = tracker();
    tracker.oom_break_glass();
    let dump = tracker.oom_dump();
    assert_eq!(dump.directory, "/default");
    assert_eq!(dump.raw_filename, "out-of-memory.prof");
    assert_eq!(dump.svg_filename, "out-of-memory.svg");
    assert_eq!(dump.reversed_svg_filename, "out-of-memory-reversed.svg");
    assert_eq!(dump.peak_bytes, 500);
    assert_eq!(dump.title, "Current allocations at out-of-memory time");
    assert!(!dump.to_be_post_processed);
    assert_eq!(dump.lines, vec!["a.py:12 (f) 300"]);
    assert_eq!(OOM_EXIT_STATUS, 53);
}

#[test]
fn a_reset_changes_the_default_path() {
    let mut tracker = tracker();
    tracker.reset("/elsewhere".to_string());
    let dump = tracker.oom_dump();
    assert_eq!(dump.directory, "/elsewhere");
    assert_eq!(dump.lines.len(), 0);
    assert_eq!(dump.peak_bytes, 0);
}

#[test]
fn options_of_flamegraphs() {
    let options = flamegraph_options("Peak", false, "1.5", true);
    assert_eq!(options.title, "Peak (1.5 MiB)");
    assert_eq!(options.subtitle, Some("SUBTITLE-HERE".to_string()));
    assert_eq!(options.count_name, "bytes");
    assert_eq!(options.font_size, 16);
    assert_eq!(options.font_type, "mono");
    assert_eq!(options.frame_height, 22);
    assert!(!options.reverse_stack_order);
    assert!(options.color_diffusion);
    assert!(options.inverted);
    assert!(options.pretty_xml);
    let options = flamegraph_options("Peak", true, "0.0", false);
    assert_eq!(options.title, "Peak, Reversed (0.0 MiB)");
    assert_eq!(options.subtitle, None);
    assert!(options.reverse_stack_order);
}

#[test]
fn directories_are_made_used_or_refused() {
    assert_eq!(directory_step(false, false), DirectoryStep::Create);
    assert_eq!(directory_step(true, true), DirectoryStep::Use);
    assert_eq!(directory_step(true, false), DirectoryStep::Refuse);
}

#[test]
fn files_have_one_line_per_string() {
    assert_eq!(file_contents(&vec![]), "");
    assert_eq!(
        file_contents(&vec!["a 1".to_string(), "".to_string(), "b 2".to_string()]),
        "a 1\n\nb 2\n"
    );
}
