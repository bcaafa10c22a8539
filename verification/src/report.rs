//! Reports: a line per callstack, and the flamegraphs that are drawn from the lines.

use crate::callstack::{calls_known, calls_text, CallSiteId, CallstackId};
use crate::filter::useful_callstacks;
use crate::functions::FunctionName;
use crate::hashing::lists_entries;
use crate::state::TrackerState;
use crate::text::{decimal, texts};
use vstd::prelude::*;
use vstd::string::*;

verus! {

/// The line for a callstack that holds `size` bytes.
pub open spec fn line_text(
    calls: Seq<CallSiteId>,
    size: usize,
    functions: Seq<FunctionName>,
    to_be_post_processed: bool,
) -> Seq<char> {
    calls_text(calls, functions, to_be_post_processed) + " "@ + decimal(size as nat)
}

/// The lines for callstacks, with the bytes that each holds.
pub open spec fn lines_text(
    entries: Seq<(CallstackId, usize)>,
    callstacks: Seq<Seq<CallSiteId>>,
    functions: Seq<FunctionName>,
    to_be_post_processed: bool,
) -> Seq<Seq<char>> {
    entries.map_values(
        |entry: (CallstackId, usize)|
            line_text(callstacks[entry.0 as int], entry.1, functions, to_be_post_processed),
    )
}

/// Whether a line can be written for each callstack.
pub open spec fn lines_known(
    entries: Seq<(CallstackId, usize)>,
    callstacks: Seq<Seq<CallSiteId>>,
    functions: Seq<FunctionName>,
) -> bool {
    forall|i: int|
        0 <= i < entries.len() ==> (#[trigger] entries[i]).0 < callstacks.len() && calls_known(
            callstacks[entries[i].0 as int],
            functions.len(),
        )
}

impl TrackerState {
    /// The byte counts that a report is about: those of the peak, or those of now.
    pub open spec fn counts(self, peak: bool) -> Seq<usize> {
        if peak {
            self.peak_usage
        } else {
            self.usage
        }
    }

    /// The callstacks that a report tells of, with the bytes that each holds.
    pub open spec fn reported(self, peak: bool) -> Map<CallstackId, usize> {
        useful_callstacks(self.counts(peak))
    }

    /// Whether all functions are registered that the callstacks of a report call.
    pub open spec fn can_report(self, peak: bool) -> bool {
        forall|id: CallstackId| #[trigger]
            self.reported(peak).contains_key(id) ==> calls_known(
                self.callstacks[id as int],
                self.functions.len(),
            )
    }

    /// Whether `lines` tell of every callstack of a report once, in whatever order, and of nothing
    /// else.
    pub open spec fn is_report(
        self,
        lines: Seq<Seq<char>>,
        peak: bool,
        to_be_post_processed: bool,
    ) -> bool {
        exists|entries: Seq<(CallstackId, usize)>| #[trigger]
            lists_entries(entries, self.reported(peak)) && lines == lines_text(
                entries,
                self.callstacks,
                self.functions,
                to_be_post_processed,
            )
    }
}

/// Lines one behind the other, each with its line end.
pub open spec fn lines_joined(lines: Seq<Seq<char>>) -> Seq<char>
    decreases lines.len(),
{
    if lines.len() == 0 {
        Seq::empty()
    } else {
        lines_joined(lines.drop_last()) + lines.last() + "\n"@
    }
}

/// What a file holds that has one line per string.
pub fn file_contents(lines: &Vec<String>) -> (contents: String)
    ensures
        contents@ == lines_joined(texts(lines@)),
{
    let mut contents: String = String::new();
    let mut i: usize = 0;
    proof {
        assert(contents@ =~= lines_joined(texts(lines@).take(0)));
    }
    while i < lines.len()
        invariant
            i <= lines.len(),
            contents@ == lines_joined(texts(lines@).take(i as int)),
        decreases lines.len() - i,
    {
        proof {
            assert(texts(lines@).take(i + 1).drop_last() =~= texts(lines@).take(i as int));
            assert(texts(lines@).take(i + 1).last() == lines@[i as int]@);
        }
        contents.append(lines[i].as_str());
        contents.append("\n");
        i = i + 1;
    }
    proof {
        assert(texts(lines@).take(i as int) =~= texts(lines@));
    }
    contents
}

/// What to do about the directory that a report goes to.
#[derive(Clone, Copy, Debug, PartialEq, Eq, Structural)]
pub enum DirectoryStep {
    /// There is nothing yet: make a directory.
    Create,
    /// There is a directory: use it.
    Use,
    /// There is something else: give up.
    Refuse,
}

/// Decides about the directory that a report goes to, by what was found at its path.
pub fn directory_step(exists: bool, is_dir: bool) -> (step: DirectoryStep)
    ensures
        step == DirectoryStep::Create <==> !exists,
        step == DirectoryStep::Use <==> exists && is_dir,
        step == DirectoryStep::Refuse <==> exists && !is_dir,
{
    if !exists {
        DirectoryStep::Create
    } else if !is_dir {
        DirectoryStep::Refuse
    } else {
        DirectoryStep::Use
    }
}

/// Everything that goes to files when a tracker is dumped.
pub struct FlamegraphDump {
    /// The directory that the files go to.
    pub directory: String,
    /// The name of the file for the lines.
    pub raw_filename: String,
    /// The name of the file for the flamegraph.
    pub svg_filename: String,
    /// The name of the file for the flamegraph with callers and callees swapped.
    pub reversed_svg_filename: String,
    /// The lines.
    pub lines: Vec<String>,
    /// The bytes at the peak, which the titles of the flamegraphs tell.
    pub peak_bytes: usize,
    /// What the titles of the flamegraphs start with.
    pub title: String,
    /// Whether more is done to the flamegraphs later.
    pub to_be_post_processed: bool,
}

/// Whether a dump tells what a tracker that knows `state` is to tell.
pub open spec fn is_dump(
    dump: FlamegraphDump,
    state: TrackerState,
    path: Seq<char>,
    peak: bool,
    base_filename: Seq<char>,
    title: Seq<char>,
    to_be_post_processed: bool,
) -> bool {
    &&& dump.directory@ == path
    &&& dump.raw_filename@ == base_filename + ".prof"@
    &&& dump.svg_filename@ == base_filename + ".svg"@
    &&& dump.reversed_svg_filename@ == base_filename + "-reversed.svg"@
    &&& state.is_report(texts(dump.lines@), peak, to_be_post_processed)
    &&& dump.peak_bytes == state.peak_bytes
    &&& dump.title@ == title
    &&& dump.to_be_post_processed == to_be_post_processed
}

/// How a flamegraph is drawn.
pub struct FlamegraphOptions {
    pub title: String,
    pub subtitle: Option<String>,
    pub count_name: String,
    pub font_size: usize,
    pub font_type: String,
    pub frame_height: usize,
    pub reverse_stack_order: bool,
    pub color_diffusion: bool,
    /// Whether the root is at the top.
    pub inverted: bool,
    pub pretty_xml: bool,
}

/// The title of a flamegraph. `mib` tells the bytes at the peak, in MiB.
pub open spec fn title_text(title: Seq<char>, reversed: bool, mib: Seq<char>) -> Seq<char> {
    title + (if reversed {
        ", Reversed"@
    } else {
        ""@
    }) + " ("@ + mib + " MiB)"@
}

/// How to draw the flamegraph of a dump. `mib` tells the bytes at the peak, in MiB.
pub fn flamegraph_options(
    title: &str,
    reversed: bool,
    mib: &str,
    to_be_post_processed: bool,
) -> (options: FlamegraphOptions)
    ensures
        options.title@ == title_text(title@, reversed, mib@),
        match options.subtitle {
            Some(subtitle) => to_be_post_processed && subtitle@ == "SUBTITLE-HERE"@,
            None => !to_be_post_processed,
        },
        options.count_name@ == "bytes"@,
        options.font_size == 16,
        options.font_type@ == "mono"@,
        options.frame_height == 22,
        options.reverse_stack_order == reversed,
        options.color_diffusion,
        options.inverted,
        options.pretty_xml,
{
    let mut full_title: String = title.to_owned();
    full_title.append(
        if reversed {
            ", Reversed"
        } else {
            ""
        },
    );
    full_title.append(" (");
    full_title.append(mib);
    full_title.append(" MiB)");
    let subtitle: Option<String> = if to_be_post_processed {
        Some("SUBTITLE-HERE".to_owned())
    } else {
        None
    };
    FlamegraphOptions {
        title: full_title,
        subtitle,
        count_name: "bytes".to_owned(),
        font_size: 16,
        font_type: "mono".to_owned(),
        frame_height: 22,
        reverse_stack_order: reversed,
        color_diffusion: true,
        inverted: true,
        // Maybe disable this some day, but for now it makes debugging much
        // easier:
        pretty_xml: true,
    }
}

/// A text with another one behind it.
pub(crate) fn with_suffix(text: &str, suffix: &str) -> (longer: String)
    ensures
        longer@ == text@ + suffix@,
{
    let mut longer: String = text.to_owned();
    longer.append(suffix);
    longer
}

/// A line reads as the calls of a callstack, a space, and in decimal the bytes that it holds.
pub proof fn law_lines_tell_calls_and_bytes(
    entries: Seq<(CallstackId, usize)>,
    callstacks: Seq<Seq<CallSiteId>>,
    functions: Seq<FunctionName>,
    to_be_post_processed: bool,
    i: int,
)
    requires
        0 <= i < entries.len(),
    ensures
        lines_text(entries, callstacks, functions, to_be_post_processed).len() == entries.len(),
        lines_text(entries, callstacks, functions, to_be_post_processed)[i] == calls_text(
            callstacks[entries[i].0 as int],
            functions,
            to_be_post_processed,
        ) + " "@ + decimal(entries[i].1 as nat),
{
}

/// A report of the peak is about the bytes at the peak, a report of now about the bytes of now.
pub proof fn law_reports_are_of_the_peak_or_of_now(state: TrackerState)
    ensures
        state.reported(true) == useful_callstacks(state.peak_usage),
        state.reported(false) == useful_callstacks(state.usage),
{
}

/// A report has a line for every callstack that it tells of, with the calls of that callstack and its
/// bytes, and as many lines as there are such callstacks.
pub proof fn law_reports_have_a_line_for_each_callstack(
    state: TrackerState,
    lines: Seq<Seq<char>>,
    peak: bool,
    to_be_post_processed: bool,
)
    requires
        state.is_report(lines, peak, to_be_post_processed),
    ensures
        state.reported(peak).dom().finite(),
        lines.len() == state.reported(peak).dom().len(),
        forall|id: CallstackId| #[trigger]
            state.reported(peak).contains_key(id) ==> exists|i: int|
                0 <= i < lines.len() && #[trigger] lines[i] == calls_text(
                    state.callstacks[id as int],
                    state.functions,
                    to_be_post_processed,
                ) + " "@ + decimal(state.reported(peak)[id] as nat),
{
    let reported = state.reported(peak);
    let entries = choose|entries: Seq<(CallstackId, usize)>| #[trigger]
        lists_entries(entries, reported) && lines == lines_text(
            entries,
            state.callstacks,
            state.functions,
            to_be_post_processed,
        );
    let ids = entries.map_values(|entry: (CallstackId, usize)| entry.0);
    assert forall|i: int, j: int| 0 <= i < ids.len() && 0 <= j < ids.len() && i != j implies ids[i]
        != ids[j] by {
        if i < j {
            assert(entries[i].0 != entries[j].0);
        } else {
            assert(entries[j].0 != entries[i].0);
        }
    }
    assert(ids.no_duplicates());
    ids.unique_seq_to_set();
    vstd::seq_lib::seq_to_set_is_finite(ids);
    assert forall|id: CallstackId| reported.dom().contains(id) <==> ids.to_set().contains(id) by {
        if reported.contains_key(id) {
            let i = choose|i: int| 0 <= i < entries.len() && #[trigger] entries[i].0 == id;
            assert(ids[i] == id);
        }
        if ids.contains(id) {
            let i = choose|i: int| 0 <= i < ids.len() && ids[i] == id;
            assert(reported.contains_key(entries[i].0));
        }
    }
    assert(reported.dom() =~= ids.to_set());
    assert forall|id: CallstackId| #[trigger] reported.contains_key(id) implies exists|i: int|
        0 <= i < lines.len() && #[trigger] lines[i] == calls_text(
            state.callstacks[id as int],
            state.functions,
            to_be_post_processed,
        ) + " "@ + decimal(reported[id] as nat) by {
        let i = choose|i: int| 0 <= i < entries.len() && #[trigger] entries[i].0 == id;
        assert(reported[entries[i].0] == entries[i].1);
        assert(lines[i] == line_text(
            state.callstacks[id as int],
            reported[id],
            state.functions,
            to_be_post_processed,
        ));
    }
}

/// Every line of a report is for one of the callstacks that it tells of.
pub proof fn law_every_line_is_for_a_callstack(
    state: TrackerState,
    lines: Seq<Seq<char>>,
    peak: bool,
    to_be_post_processed: bool,
    i: int,
)
    requires
        state.is_report(lines, peak, to_be_post_processed),
        0 <= i < lines.len(),
    ensures
        exists|id: CallstackId| #[trigger]
            state.reported(peak).contains_key(id) && lines[i] == calls_text(
                state.callstacks[id as int],
                state.functions,
                to_be_post_processed,
            ) + " "@ + decimal(state.reported(peak)[id] as nat),
{
    let entries = choose|entries: Seq<(CallstackId, usize)>| #[trigger]
        lists_entries(entries, state.reported(peak)) && lines == lines_text(
            entries,
            state.callstacks,
            state.functions,
            to_be_post_processed,
        );
    let id = entries[i].0;
    assert(state.reported(peak).contains_key(id));
}

/// A report can be made just if every callstack that it tells of calls registered functions only.
pub proof fn law_reports_need_registered_functions(state: TrackerState, peak: bool)
    ensures
        state.can_report(peak) <==> forall|id: CallstackId, k: int|
            #![trigger state.reported(peak).contains_key(id), state.callstacks[id as int][k]]
            state.reported(peak).contains_key(id) && 0 <= k < state.callstacks[id as int].len()
                ==> state.callstacks[id as int][k].function.0 < state.functions.len(),
{
    if state.can_report(peak) {
        assert forall|id: CallstackId, k: int|
            #![trigger state.reported(peak).contains_key(id), state.callstacks[id as int][k]]
            state.reported(peak).contains_key(id) && 0 <= k
                < state.callstacks[id as int].len() implies state.callstacks[id as int][k].function.0
            < state.functions.len() by {
            assert(calls_known(state.callstacks[id as int], state.functions.len()));
        }
    }
}

/// A file has each line with its line end behind it, in the order of the lines.
pub proof fn law_files_have_a_line_end_behind_each_line(lines: Seq<Seq<char>>, last: Seq<char>)
    ensures
        lines_joined(Seq::<Seq<char>>::empty()) == Seq::<char>::empty(),
        lines_joined(lines.push(last)) == lines_joined(lines) + last + seq!['\n'],
{
    reveal_strlit("\n");
    assert("\n"@ =~= seq!['\n']);
    assert(lines.push(last).drop_last() =~= lines);
}

/// The title of a flamegraph tells, behind the title of the dump, whether callers and callees are
/// swapped, and in brackets the MiBs at the peak.
pub proof fn law_titles_tell_the_peak(title: Seq<char>, mib: Seq<char>)
    ensures
        title_text(title, false, mib) == title + " ("@ + mib + " MiB)"@,
        title_text(title, true, mib) == title + ", Reversed ("@ + mib + " MiB)"@,
{
    reveal_strlit("");
    reveal_strlit(" (");
    reveal_strlit(", Reversed");
    reveal_strlit(", Reversed (");
    assert(title + ""@ =~= title);
    assert(", Reversed"@ + " ("@ =~= ", Reversed ("@);
    assert(title + ", Reversed"@ + " ("@ =~= title + ", Reversed ("@);
}

/// A dump goes to the given directory, into three files with the given base name, and tells the
/// lines of a report, the peak and the given title.
pub proof fn law_dumps_tell_the_report(
    dump: FlamegraphDump,
    state: TrackerState,
    path: Seq<char>,
    peak: bool,
    base_filename: Seq<char>,
    title: Seq<char>,
    to_be_post_processed: bool,
)
    requires
        is_dump(dump, state, path, peak, base_filename, title, to_be_post_processed),
    ensures
        dump.directory@ == path,
        dump.raw_filename@ == base_filename + ".prof"@,
        dump.svg_filename@ == base_filename + ".svg"@,
        dump.reversed_svg_filename@ == base_filename + "-reversed.svg"@,
        dump.lines.len() == state.reported(peak).dom().len(),
        forall|id: CallstackId| #[trigger]
            state.reported(peak).contains_key(id) ==> exists|i: int|
                0 <= i < dump.lines.len() && (#[trigger] dump.lines@[i])@ == calls_text(
                    state.callstacks[id as int],
                    state.functions,
                    to_be_post_processed,
                ) + " "@ + decimal(state.reported(peak)[id] as nat),
        dump.peak_bytes == state.peak_bytes,
        dump.title@ == title,
        dump.to_be_post_processed == to_be_post_processed,
{
    let lines = texts(dump.lines@);
    law_reports_have_a_line_for_each_callstack(state, lines, peak, to_be_post_processed);
    assert forall|id: CallstackId| #[trigger] state.reported(peak).contains_key(id) implies exists|
        i: int,
    |
        0 <= i < dump.lines.len() && (#[trigger] dump.lines@[i])@ == calls_text(
            state.callstacks[id as int],
            state.functions,
            to_be_post_processed,
        ) + " "@ + decimal(state.reported(peak)[id] as nat) by {
        let i = choose|i: int|
            0 <= i < lines.len() && #[trigger] lines[i] == calls_text(
                state.callstacks[id as int],
                state.functions,
                to_be_post_processed,
            ) + " "@ + decimal(state.reported(peak)[id] as nat);
        assert(dump.lines@[i]@ == lines[i]);
    }
}

/// A line can be written for each callstack that has been seen and calls registered functions only.
pub proof fn law_lines_need_registered_functions(
    entries: Seq<(CallstackId, usize)>,
    callstacks: Seq<Seq<CallSiteId>>,
    functions: Seq<FunctionName>,
)
    requires
        forall|i: int, k: int|
            #![trigger callstacks[entries[i].0 as int][k]]
            0 <= i < entries.len() && 0 <= k < callstacks[entries[i].0 as int].len()
                ==> callstacks[entries[i].0 as int][k].function.0 < functions.len(),
        forall|i: int| 0 <= i < entries.len() ==> (#[trigger] entries[i]).0 < callstacks.len(),
    ensures
        lines_known(entries, callstacks, functions),
{
}

} // verus!
