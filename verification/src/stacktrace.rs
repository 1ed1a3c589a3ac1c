//! Stack frames, and when two of them are the same place in the program.
use vstd::prelude::*;

verus! {

/// Where a frame stands in the source code. An empty file and a zero mean that it is not known.
#[derive(Debug)]
pub struct DebugInfo {
    /// Source file.
    pub file: String,
    /// Source line.
    pub line: u64,
    /// Source column.
    pub column: u64,
}

/// One frame of a stack trace. Empty texts and zeros stand for what is not known of it.
#[derive(Debug)]
pub struct Frame {
    /// Address of the instruction.
    pub address: u64,
    /// Function name.
    pub function: String,
    /// Path to the binary module.
    pub module: String,
    /// Offset in the binary module.
    pub offset: u64,
    /// Place in the source code.
    pub debug: DebugInfo,
}

/// The model of [`DebugInfo`].
#[verifier::ext_equal]
pub struct DebugView {
    pub file: Seq<char>,
    pub line: u64,
    pub column: u64,
}

/// The model of [`Frame`].
#[verifier::ext_equal]
pub struct FrameView {
    pub address: u64,
    pub function: Seq<char>,
    pub module: Seq<char>,
    pub offset: u64,
    pub debug: DebugView,
}

impl View for DebugInfo {
    type V = DebugView;

    open spec fn view(&self) -> DebugView {
        DebugView { file: self.file@, line: self.line, column: self.column }
    }
}

impl View for Frame {
    type V = FrameView;

    open spec fn view(&self) -> FrameView {
        FrameView {
            address: self.address,
            function: self.function@,
            module: self.module@,
            offset: self.offset,
            debug: self.debug@,
        }
    }
}

/// The model of a stack trace.
pub open spec fn frames_view(frames: Seq<Frame>) -> Seq<FrameView> {
    frames.map_values(|f: Frame| f@)
}

/// The best that is known of where a frame stands: its source position if there is one, else its
/// offset in a module if there is one, else its address.
pub enum Place {
    Source(DebugView),
    Module(Seq<char>, u64),
    Address(u64),
}

impl FrameView {
    /// The frame has a source position.
    pub open spec fn has_source(self) -> bool {
        self.debug.file.len() > 0
    }

    /// The frame has an offset in a module.
    pub open spec fn has_module(self) -> bool {
        self.module.len() > 0 && self.offset != 0
    }

    /// The best that is known of where the frame stands.
    pub open spec fn place(self) -> Place {
        if self.has_source() {
            Place::Source(self.debug)
        } else if self.has_module() {
            Place::Module(self.module, self.offset)
        } else {
            Place::Address(self.address)
        }
    }

    /// The two frames agree in the best that is known of both: the source position, else the
    /// offset in a module, else the address.
    pub open spec fn same(self, other: FrameView) -> bool {
        if self.has_source() && other.has_source() {
            self.debug == other.debug
        } else if self.has_module() && other.has_module() {
            self.module == other.module && self.offset == other.offset
        } else {
            self.address == other.address
        }
    }
}

/// The places of the frames of a stack trace.
pub open spec fn places(trace: Seq<FrameView>) -> Seq<Place> {
    trace.map_values(|f: FrameView| f.place())
}

/// The two stack traces have the same length and agree frame by frame.
pub open spec fn same_trace(a: Seq<FrameView>, b: Seq<FrameView>) -> bool {
    a.len() == b.len() && forall|i: int| 0 <= i < a.len() ==> #[trigger] a[i].same(b[i])
}

/// Some frame of one stack trace agrees with some frame of the other.
pub open spec fn share_a_frame(a: Seq<FrameView>, b: Seq<FrameView>) -> bool {
    exists|i: int, j: int|
        0 <= i < a.len() && 0 <= j < b.len() && (#[trigger] a[i]).same(#[trigger] b[j])
}

/// The length of the shorter of two stack traces.
pub open spec fn shorter(a: Seq<FrameView>, b: Seq<FrameView>) -> int {
    if a.len() <= b.len() {
        a.len() as int
    } else {
        b.len() as int
    }
}

/// The first `n` frames of the two stack traces agree.
pub open spec fn agree_in_first(a: Seq<FrameView>, b: Seq<FrameView>, n: int) -> bool {
    forall|k: int| 0 <= k < n ==> (#[trigger] a[k]).same(b[k])
}

/// The frames of the two stack traces agree at each index of both but for those in `odd`.
pub open spec fn agree_but_for(a: Seq<FrameView>, b: Seq<FrameView>, odd: Set<int>) -> bool {
    forall|k: int| 0 <= k < shorter(a, b) && !odd.contains(k) ==> (#[trigger] a[k]).same(b[k])
}

/// The stack traces are close: they agree in the first four fifths of the shorter one, or in all of
/// it but for at most four frames, which are at most an eighth of it.
pub open spec fn are_close(a: Seq<FrameView>, b: Seq<FrameView>) -> bool {
    ||| exists|n: int|
        0 <= n <= shorter(a, b) && 5 * n >= 4 * shorter(a, b) && #[trigger] agree_in_first(a, b, n)
    ||| exists|odd: Set<int>| #[trigger]
        agree_but_for(a, b, odd) && odd.finite() && odd.len() <= 4 && 8 * odd.len() <= shorter(a, b)
}

/// No frame of `a` agrees with a frame of `b` but for those at the indices in `odd`.
pub open spec fn differ_but_for(a: Seq<FrameView>, b: Seq<FrameView>, odd: Set<int>) -> bool {
    forall|k: int, l: int|
        0 <= k < a.len() && 0 <= l < b.len() && !odd.contains(k) ==> !(#[trigger] a[k]).same(
            #[trigger] b[l],
        )
}

/// The stack traces are far apart: at most twelve frames of the first agree with a frame of the
/// second, and those are at most half as many as the shorter one has.
pub open spec fn are_far(a: Seq<FrameView>, b: Seq<FrameView>) -> bool {
    exists|odd: Set<int>| #[trigger]
        differ_but_for(a, b, odd) && odd.finite() && odd.len() <= 12 && 2 * odd.len() <= shorter(
            a,
            b,
        )
}

impl Frame {
    /// Whether the two frames agree in the best that is known of both. This is the equality of
    /// `gdb_command::stacktrace::StacktraceEntry`.
    pub fn same(&self, other: &Frame) -> (r: bool)
        ensures
            r == self@.same(other@),
    {
        if !self.debug.file.as_str().is_empty() && !other.debug.file.as_str().is_empty() {
            return self.debug.file == other.debug.file && self.debug.line == other.debug.line
                && self.debug.column == other.debug.column;
        }
        if !self.module.as_str().is_empty() && !other.module.as_str().is_empty() && self.offset != 0 && other.offset
            != 0 {
            return self.module == other.module && self.offset == other.offset;
        }
        self.address == other.address
    }

    /// Whether the two frames have the same place.
    pub fn same_place(&self, other: &Frame) -> (r: bool)
        ensures
            r == (self@.place() == other@.place()),
    {
        let source = !self.debug.file.as_str().is_empty();
        let other_source = !other.debug.file.as_str().is_empty();
        if source || other_source {
            return source && other_source && self.debug.file == other.debug.file
                && self.debug.line == other.debug.line && self.debug.column == other.debug.column;
        }
        let module = !self.module.as_str().is_empty() && self.offset != 0;
        let other_module = !other.module.as_str().is_empty() && other.offset != 0;
        if module || other_module {
            return module && other_module && self.module == other.module && self.offset
                == other.offset;
        }
        self.address == other.address
    }
}

/// Whether the two stack traces have the same length and agree frame by frame.
pub fn equal_traces(a: &Vec<Frame>, b: &Vec<Frame>) -> (r: bool)
    ensures
        r == same_trace(frames_view(a@), frames_view(b@)),
{
    if a.len() != b.len() {
        return false;
    }
    let mut i: usize = 0;
    while i < a.len()
        invariant
            i <= a.len(),
            a.len() == b.len(),
            forall|j: int|
                0 <= j < i ==> #[trigger] frames_view(a@)[j].same(frames_view(b@)[j]),
        decreases a.len() - i,
    {
        if !a[i].same(&b[i]) {
            assert(!frames_view(a@)[i as int].same(frames_view(b@)[i as int]));
            return false;
        }
        i += 1;
    }
    true
}

/// Whether the two stack traces have the same places.
pub fn equal_places(a: &Vec<Frame>, b: &Vec<Frame>) -> (r: bool)
    ensures
        r == (places(frames_view(a@)) == places(frames_view(b@))),
{
    let ghost left = places(frames_view(a@));
    let ghost right = places(frames_view(b@));
    assert(left.len() == a.len() && right.len() == b.len());
    if a.len() != b.len() {
        return false;
    }
    let mut i: usize = 0;
    while i < a.len()
        invariant
            i <= a.len(),
            a.len() == b.len(),
            left == places(frames_view(a@)),
            right == places(frames_view(b@)),
            forall|j: int| 0 <= j < i ==> left[j] == right[j],
        decreases a.len() - i,
    {
        assert(left[i as int] == a[i as int]@.place() && right[i as int] == b[i as int]@.place());
        if !a[i].same_place(&b[i]) {
            return false;
        }
        i += 1;
    }
    assert(left =~= right);
    true
}

/// Agreement of stack traces goes both ways.
pub proof fn law_same_trace_is_symmetric(a: Seq<FrameView>, b: Seq<FrameView>)
    ensures
        same_trace(a, b) == same_trace(b, a),
{
    if same_trace(a, b) {
        assert forall|i: int| 0 <= i < b.len() implies #[trigger] b[i].same(a[i]) by {
            assert(a[i].same(b[i]));
        }
    }
    if same_trace(b, a) {
        assert forall|i: int| 0 <= i < a.len() implies #[trigger] a[i].same(b[i]) by {
            assert(b[i].same(a[i]));
        }
    }
}

/// Stack traces with the same places agree.
pub proof fn law_same_places_are_the_same_trace(a: Seq<FrameView>, b: Seq<FrameView>)
    requires
        places(a) == places(b),
    ensures
        same_trace(a, b),
{
    assert(a.len() == places(a).len() && b.len() == places(b).len());
    assert forall|i: int| 0 <= i < a.len() implies #[trigger] a[i].same(b[i]) by {
        assert(places(a)[i] == a[i].place());
        assert(places(b)[i] == b[i].place());
    }
}

/// The model of a stack trace holds all that is known of each frame.
pub proof fn law_the_model_of_a_trace_is_complete(frames: Seq<Frame>)
    ensures
        frames_view(frames).len() == frames.len(),
        forall|i: int|
            0 <= i < frames.len() ==> {
                let view = #[trigger] frames_view(frames)[i];
                &&& view.address == frames[i].address
                &&& view.function == frames[i].function@
                &&& view.module == frames[i].module@
                &&& view.offset == frames[i].offset
                &&& view.debug.file == frames[i].debug.file@
                &&& view.debug.line == frames[i].debug.line
                &&& view.debug.column == frames[i].debug.column
            },
{
}

/// Two frames agree by their source positions if both have one, else by their offsets in modules if
/// both have one, else by their addresses. A source position has a file; an offset in a module has a
/// module and is not zero.
pub proof fn law_frames_agree_by_the_best_that_is_known(a: FrameView, b: FrameView)
    ensures
        a.debug.file.len() > 0 && b.debug.file.len() > 0 ==> (a.same(b) <==> a.debug.file
            == b.debug.file && a.debug.line == b.debug.line && a.debug.column == b.debug.column),
        (a.debug.file.len() == 0 || b.debug.file.len() == 0) && a.module.len() > 0 && b.module.len()
            > 0 && a.offset != 0 && b.offset != 0 ==> (a.same(b) <==> a.module == b.module
            && a.offset == b.offset),
        (a.debug.file.len() == 0 || b.debug.file.len() == 0) && (a.module.len() == 0
            || b.module.len() == 0 || a.offset == 0 || b.offset == 0) ==> (a.same(b) <==> a.address
            == b.address),
{
}

/// Two stack traces agree if and only if they have the same length and their frames agree at every
/// index: in the source position if both have one, else in module and offset if both have them, else
/// in the address.
pub proof fn law_traces_agree_at_every_frame(a: Seq<FrameView>, b: Seq<FrameView>)
    ensures
        same_trace(a, b) <==> a.len() == b.len() && forall|i: int|
            #![trigger a[i]]
            0 <= i < a.len() ==> if a[i].debug.file.len() > 0 && b[i].debug.file.len() > 0 {
                a[i].debug.file == b[i].debug.file && a[i].debug.line == b[i].debug.line
                    && a[i].debug.column == b[i].debug.column
            } else if a[i].module.len() > 0 && b[i].module.len() > 0 && a[i].offset != 0
                && b[i].offset != 0 {
                a[i].module == b[i].module && a[i].offset == b[i].offset
            } else {
                a[i].address == b[i].address
            },
{
    if same_trace(a, b) {
        assert forall|i: int| #![trigger a[i]] 0 <= i < a.len() implies a[i].same(b[i]) by {}
    }
}

/// A single frame in which two stack traces do not agree tells them apart, wherever it stands.
pub proof fn law_one_frame_tells_traces_apart(a: Seq<FrameView>, b: Seq<FrameView>, i: int)
    requires
        0 <= i < a.len(),
        0 <= i < b.len(),
        !a[i].same(b[i]),
    ensures
        !same_trace(a, b),
{
}

/// Two stack traces have the same places if and only if they have the same length and at every index
/// the same source position, or none but the same offset in a module, or neither but the same
/// address.
pub proof fn law_places_are_compared_at_every_frame(a: Seq<FrameView>, b: Seq<FrameView>)
    ensures
        places(a) == places(b) <==> a.len() == b.len() && forall|i: int|
            #![trigger a[i]]
            0 <= i < a.len() ==> if a[i].debug.file.len() > 0 {
                b[i].debug.file == a[i].debug.file && b[i].debug.line == a[i].debug.line
                    && b[i].debug.column == a[i].debug.column
            } else if a[i].module.len() > 0 && a[i].offset != 0 {
                b[i].debug.file.len() == 0 && b[i].module == a[i].module && b[i].offset
                    == a[i].offset
            } else {
                b[i].debug.file.len() == 0 && (b[i].module.len() == 0 || b[i].offset == 0)
                    && b[i].address == a[i].address
            },
{
    assert(places(a).len() == a.len() && places(b).len() == b.len());
    if places(a) == places(b) {
        assert forall|i: int|
            #![trigger a[i]]
            0 <= i < a.len() implies a[i].place() == b[i].place() by {
            assert(places(a)[i] == places(b)[i]);
        }
    } else if a.len() == b.len() {
        if forall|i: int| 0 <= i < a.len() ==> (#[trigger] a[i]).place() == b[i].place() {
            assert(places(a) =~= places(b));
        } else {
            let i = choose|i: int| 0 <= i < a.len() && (#[trigger] a[i]).place() != b[i].place();
            assert(a[i].debug.file.len() > 0 && b[i].debug.file == a[i].debug.file
                && b[i].debug.line == a[i].debug.line && b[i].debug.column == a[i].debug.column
                ==> b[i].debug =~= a[i].debug);
            assert(a[i].place() != b[i].place());
        }
    }
}

} // verus!
