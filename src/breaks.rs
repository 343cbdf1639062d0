use vstd::prelude::*;

verus! {

/// Whether break opportunity `p` is set in a bit set of 32-bit words, the
/// lowest bit of each word first.
pub open spec fn break_at(options: Seq<u32>, p: int) -> bool {
    (options[p / 32] >> ((p % 32) as u32)) & 1u32 == 1u32
}

/// Walks the break opportunities of a byte range `(at, end)`.
pub struct BreakIter {
    pub at: u32,
    pub end: u32,
}

impl BreakIter {
    /// The next break opportunity after `at` and before `end`, or `end` when
    /// there is none; the walk then stands at the position returned.
    pub fn next(&mut self, break_options: &[u32]) -> (r: u32)
        requires
            old(self).end <= 32 * break_options@.len(),
        ensures
            final(self).end == old(self).end,
            old(self).at >= old(self).end ==> r == old(self).end && final(self).at == old(self).at,
            old(self).at < old(self).end ==> {
                &&& old(self).at < r <= old(self).end
                &&& final(self).at == r
                &&& r < old(self).end ==> break_at(break_options@, r as int)
                &&& forall|p: int| old(self).at < p < r ==> !break_at(break_options@, p)
            },
    {
        if self.at >= self.end {
            return self.end;
        }
        let mut p: u32 = self.at + 1;
        while p < self.end
            invariant
                old(self).at < p <= old(self).end,
                self.end == old(self).end,
                self.at == old(self).at,
                self.end <= 32 * break_options@.len(),
                forall|q: int| old(self).at < q < p ==> !break_at(break_options@, q),
            decreases self.end - p,
        {
            let word = break_options[(p / 32) as usize];
            if (word >> (p % 32)) & 1 == 1 {
                self.at = p;
                return p;
            }
            p = p + 1;
        }
        self.at = self.end;
        self.end
    }
}


/// The script of a run of text as the shaping backend reports it: an opaque
/// script id and its shaping flags.
#[derive(Clone, Copy, PartialEq, Eq, Debug, Structural)]
pub struct ScriptAnalysis {
    pub script: u16,
    pub shapes: u32,
}

/// Per UTF-16 unit of a paragraph starting at unit `begin`: whether the unit
/// is right-to-left, and its script, as the backend reports them run by run.
pub struct DwSinkSpans {
    pub begin: u32,
    pub is_rtls: Vec<bool>,
    pub scripts: Vec<ScriptAnalysis>,
}

impl DwSinkSpans {
    /// Records the direction of the `len` units from unit `pos`.
    pub fn set_bidi(&mut self, pos: u32, len: u32, is_rtl: bool)
        requires
            old(self).begin <= pos,
            pos - old(self).begin + len <= old(self).is_rtls@.len(),
        ensures
            final(self).begin == old(self).begin,
            final(self).scripts@ == old(self).scripts@,
            final(self).is_rtls@.len() == old(self).is_rtls@.len(),
            forall|i: int|
                0 <= i < final(self).is_rtls@.len() ==> #[trigger] final(self).is_rtls@[i] == if pos
                    - old(self).begin <= i < pos - old(self).begin + len {
                    is_rtl
                } else {
                    old(self).is_rtls@[i]
                },
    {
        let n = self.is_rtls.len();
        let begin = (pos - self.begin) as usize;
        let end = begin + len as usize;
        let mut i: usize = begin;
        while i < end
            invariant
                n == self.is_rtls@.len(),
                begin <= i <= end,
                end <= self.is_rtls@.len(),
                self.begin == old(self).begin,
                self.scripts@ == old(self).scripts@,
                self.is_rtls@.len() == old(self).is_rtls@.len(),
                begin == pos - old(self).begin,
                end == begin + len,
                forall|k: int|
                    0 <= k < self.is_rtls@.len() ==> #[trigger] self.is_rtls@[k] == if begin <= k < i {
                        is_rtl
                    } else {
                        old(self).is_rtls@[k]
                    },
            decreases end - i,
        {
            self.is_rtls.set(i, is_rtl);
            i = i + 1;
        }
    }

    /// Records the script of the `len` units from unit `pos`.
    pub fn set_script(&mut self, pos: u32, len: u32, script: ScriptAnalysis)
        requires
            old(self).begin <= pos,
            pos - old(self).begin + len <= old(self).scripts@.len(),
        ensures
            final(self).begin == old(self).begin,
            final(self).is_rtls@ == old(self).is_rtls@,
            final(self).scripts@.len() == old(self).scripts@.len(),
            forall|i: int|
                0 <= i < final(self).scripts@.len() ==> #[trigger] final(self).scripts@[i] == if pos
                    - old(self).begin <= i < pos - old(self).begin + len {
                    script
                } else {
                    old(self).scripts@[i]
                },
    {
        let n = self.scripts.len();
        let begin = (pos - self.begin) as usize;
        let end = begin + len as usize;
        let mut i: usize = begin;
        while i < end
            invariant
                n == self.scripts@.len(),
                begin <= i <= end,
                end <= self.scripts@.len(),
                self.begin == old(self).begin,
                self.is_rtls@ == old(self).is_rtls@,
                self.scripts@.len() == old(self).scripts@.len(),
                begin == pos - old(self).begin,
                end == begin + len,
                forall|k: int|
                    0 <= k < self.scripts@.len() ==> #[trigger] self.scripts@[k] == if begin <= k < i {
                        script
                    } else {
                        old(self).scripts@[k]
                    },
            decreases end - i,
        {
            self.scripts.set(i, script);
            i = i + 1;
        }
    }
}


/// The format run that byte offset `b` falls in: the number of leading run
/// ends at or below `b`.
pub open spec fn run_at(ends: Seq<u32>, b: int) -> nat
    decreases ends.len(),
{
    if ends.len() == 0 || b < ends[0] {
        0
    } else {
        1 + run_at(ends.skip(1), b)
    }
}

/// The format run of byte offset `b`, given the byte offsets where runs end.
pub fn run_index(run_ends: &Vec<u32>, b: u32) -> (r: usize)
    ensures
        r == run_at(run_ends@, b as int),
{
    let mut r: usize = 0;
    proof {
        assert(run_ends@.skip(0) =~= run_ends@);
    }
    while r < run_ends.len() && b >= run_ends[r]
        invariant
            r <= run_ends@.len(),
            run_at(run_ends@, b as int) == r + run_at(run_ends@.skip(r as int), b as int),
        decreases run_ends@.len() - r,
    {
        proof {
            assert(run_ends@.skip(r as int)[0] == run_ends@[r as int]);
            assert(run_ends@.skip(r as int).skip(1) =~= run_ends@.skip(r + 1));
        }
        r = r + 1;
    }
    proof {
        if r < run_ends@.len() {
            assert(run_ends@.skip(r as int)[0] == run_ends@[r as int]);
        }
    }
    r
}

/// A maximal run of UTF-16 units of a paragraph that share direction, script
/// and format run; `object_index` is the inline object that the run stands for.
#[derive(Clone, Copy, PartialEq, Eq, Debug, Structural)]
pub struct RawSpan {
    pub begin: u32,
    pub end: u32,
    pub format_run: usize,
    pub object_index: Option<u32>,
    pub is_rtl: bool,
    pub script: ScriptAnalysis,
}

/// Direction, script and format run of unit `u` of a paragraph.
pub open spec fn unit_key(sink: &DwSinkSpans, to_utf8: Seq<u32>, run_ends: Seq<u32>, u: int) -> (bool, ScriptAnalysis, nat) {
    (
        sink.is_rtls@[u - sink.begin],
        sink.scripts@[u - sink.begin],
        run_at(run_ends, to_utf8[u] as int),
    )
}

/// Direction, script and format run of a span.
pub open spec fn span_key(s: RawSpan) -> (bool, ScriptAnalysis, nat) {
    (s.is_rtl, s.script, s.format_run as nat)
}

/// The object of format run `run`, if the run stands for one.
pub open spec fn object_of(run_objects: Seq<Option<u32>>, run: nat) -> Option<u32> {
    if run < run_objects.len() {
        run_objects[run as int]
    } else {
        None
    }
}

/// What the spans of a paragraph from `begin` to `line_end` satisfy: they
/// cover it in order without gap, each unit has its span's direction, script
/// and format run, and neighbouring spans differ in one of these.
pub open spec fn spans_ok(
    r: Seq<RawSpan>,
    sink: &DwSinkSpans,
    line_end: u32,
    to_utf8: Seq<u32>,
    run_ends: Seq<u32>,
    run_objects: Seq<Option<u32>>,
) -> bool {
    &&& r.len() > 0
    &&& r[0].begin == sink.begin
    &&& r.last().end == line_end
    &&& forall|i: int| 0 <= i < r.len() ==> (#[trigger] r[i]).begin < r[i].end
    &&& forall|i: int|
        0 < i < r.len() ==> (#[trigger] r[i]).begin == r[i - 1].end && span_key(r[i]) != span_key(r[i - 1])
    &&& forall|i: int, u: int|
        0 <= i < r.len() && r[i].begin <= u < r[i].end ==> #[trigger] unit_key(sink, to_utf8, run_ends, u)
            == span_key(#[trigger] r[i])
    &&& forall|i: int| 0 <= i < r.len() ==> (#[trigger] r[i]).object_index == object_of(run_objects, r[i].format_run as nat)
}

/// Splits the paragraph of UTF-16 units from `sink.begin` to `line_end` into
/// maximal spans of equal direction, script and format run. `to_utf8` maps
/// units to byte offsets; format run `k` ends at byte `run_ends[k]` and
/// stands for the object `run_objects[k]`, if any.
pub fn paragraph_spans(
    sink: &DwSinkSpans,
    line_end: u32,
    to_utf8: &Vec<u32>,
    run_ends: &Vec<u32>,
    run_objects: &Vec<Option<u32>>,
) -> (r: Vec<RawSpan>)
    requires
        sink.begin < line_end,
        sink.is_rtls@.len() == line_end - sink.begin,
        sink.scripts@.len() == line_end - sink.begin,
        line_end <= to_utf8@.len(),
    ensures
        spans_ok(r@, sink, line_end, to_utf8@, run_ends@, run_objects@),
{
    let begin = sink.begin;
    let run0 = run_index(run_ends, to_utf8[begin as usize]);
    let obj0 = if run0 < run_objects.len() {
        run_objects[run0]
    } else {
        None
    };
    let mut cur = RawSpan {
        begin,
        end: begin + 1,
        format_run: run0,
        object_index: obj0,
        is_rtl: sink.is_rtls[0],
        script: sink.scripts[0],
    };
    let mut result: Vec<RawSpan> = Vec::new();
    let mut pos: u32 = begin + 1;
    while pos < line_end
        invariant
            begin == sink.begin,
            begin < pos <= line_end,
            sink.is_rtls@.len() == line_end - begin,
            sink.scripts@.len() == line_end - begin,
            line_end <= to_utf8@.len(),
            cur.end == pos,
            cur.begin < cur.end,
            cur.object_index == object_of(run_objects@, cur.format_run as nat),
            forall|u: int| cur.begin <= u < cur.end ==> #[trigger] unit_key(sink, to_utf8@, run_ends@, u) == span_key(cur),
            result@.len() == 0 ==> cur.begin == begin,
            result@.len() > 0 ==> result@[0].begin == begin && cur.begin == result@.last().end
                && span_key(cur) != span_key(result@.last()),
            forall|i: int| 0 <= i < result@.len() ==> (#[trigger] result@[i]).begin < result@[i].end,
            forall|i: int|
                0 < i < result@.len() ==> (#[trigger] result@[i]).begin == result@[i - 1].end
                    && span_key(result@[i]) != span_key(result@[i - 1]),
            forall|i: int, u: int|
                0 <= i < result@.len() && result@[i].begin <= u < result@[i].end ==> #[trigger] unit_key(
                    sink,
                    to_utf8@,
                    run_ends@,
                    u,
                ) == span_key(#[trigger] result@[i]),
            forall|i: int| 0 <= i < result@.len() ==> (#[trigger] result@[i]).object_index == object_of(run_objects@, result@[i].format_run as nat),
        decreases line_end - pos,
    {
        let i = (pos - begin) as usize;
        let is_rtl = sink.is_rtls[i];
        let script = sink.scripts[i];
        let run = run_index(run_ends, to_utf8[pos as usize]);
        if is_rtl == cur.is_rtl && script == cur.script && run == cur.format_run {
            cur.end = pos + 1;
        } else {
            let ghost before = result@;
            result.push(cur);
            let obj = if run < run_objects.len() {
                run_objects[run]
            } else {
                None
            };
            cur = RawSpan { begin: pos, end: pos + 1, format_run: run, object_index: obj, is_rtl, script };
            proof {
                assert(result@.last() == before.push(result@.last()).last());
                assert forall|k: int| 0 <= k < before.len() implies result@[k] == before[k] by {}
            }
        }
        pos = pos + 1;
    }
    let ghost before = result@;
    result.push(cur);
    proof {
        let r = result@;
        assert forall|k: int| 0 <= k < before.len() implies r[k] == before[k] by {}
        assert forall|k: int, u: int| 0 <= k < r.len() && r[k].begin <= u < r[k].end implies #[trigger] unit_key(
            sink,
            to_utf8@,
            run_ends@,
            u,
        ) == span_key(#[trigger] r[k]) by {
            if k < before.len() {
                assert(r[k] == before[k]);
            }
        }
    }
    result
}

} // verus!
