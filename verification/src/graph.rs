//! The frame graph: the declarative skeleton of a rendered frame.
//!
//! Every piece of per-frame work is a *pass*: a name, a phase, and the
//! logical resources it reads and writes ([`PassDesc`]). The graph keeps the
//! bookkeeping for a frame: which passes ran or were masked off
//! ([`PassMask`]), in what order, how long each took, and whether the declared
//! data flow is consistent (every read produced earlier this frame, or
//! persistent across frames).
//!
//! Scheduling inside the shared multisampled pass: contributions run by
//! phase (ground before overlay), in registration order within a phase
//! ([`msaa_order`]).

use vstd::prelude::*;
use vstd::string::StringExecFns;
use vstd::pervasive::VecAdditionalExecFns;
use std::time::Duration;
use crate::names::{
    name_less, strictly_sorted, str_less, str_equal, lemma_name_less_irrefl, lemma_name_less_trans,
    lemma_name_less_total, lemma_name_less_distinct,
};

verus! {

// ---------------------------------------------------------------------------
// Time, from the platform clock.

#[verifier::external_type_specification]
#[verifier::external_body]
pub struct ExInstant(web_time::Instant);

/// The current instant (`web_time::Instant::now`). Nothing is stated of it:
/// it depends on the clock.
#[verifier::external_body]
fn clock_now() -> web_time::Instant {
    web_time::Instant::now()
}

/// Time elapsed since `start` (`Instant::elapsed`). Nothing is stated of it:
/// it depends on the clock.
#[verifier::external_body]
fn clock_elapsed(start: &web_time::Instant) -> Duration {
    start.elapsed()
}

/// The zero duration (`Duration::ZERO`). The duration type is opaque here,
/// so that it is zero is not stated.
#[verifier::external_body]
pub(crate) fn zero_duration() -> Duration {
    Duration::ZERO
}

// ---------------------------------------------------------------------------
// Resources and phases.

/// Logical resources a pass can read or write: tags of data flow between
/// passes, not individual GPU objects.
#[derive(Debug, Clone, Copy, PartialEq, Eq, Structural, PartialOrd, Ord)]
pub enum Res {
    /// The camera-centred relief heightfield. Persistent.
    HeightField,
    /// The world-locked ambient-occlusion field. Persistent.
    AoField,
    /// Per-frame shadow/lighting uniforms.
    ShadowUniforms,
    /// The multisampled colour attachment of the frame pass.
    ColorMsaa,
    /// The multisampled depth attachment of the frame pass.
    Depth,
    /// The frame's resolved, single-sampled target.
    FrameTarget,
}

pub open spec fn res_persistent(r: Res) -> bool {
    r == Res::HeightField || r == Res::AoField
}

impl Res {
    /// Persistent resources survive across frames: a pass may read them even
    /// if nothing wrote them this frame.
    pub fn persistent(self) -> (b: bool)
        ensures
            b == res_persistent(self),
    {
        match self {
            Res::HeightField | Res::AoField => true,
            _ => false,
        }
    }

    /// The resource's name as written in reports.
    pub fn name(self) -> (s: &'static str)
        ensures
            s@ == res_name(self),
    {
        match self {
            Res::HeightField => "HeightField",
            Res::AoField => "AoField",
            Res::ShadowUniforms => "ShadowUniforms",
            Res::ColorMsaa => "ColorMsaa",
            Res::Depth => "Depth",
            Res::FrameTarget => "FrameTarget",
        }
    }
}

pub open spec fn res_name(r: Res) -> Seq<char> {
    match r {
        Res::HeightField => "HeightField"@,
        Res::AoField => "AoField"@,
        Res::ShadowUniforms => "ShadowUniforms"@,
        Res::ColorMsaa => "ColorMsaa"@,
        Res::Depth => "Depth"@,
        Res::FrameTarget => "FrameTarget"@,
    }
}

/// Where in the frame a pass runs. Earlier variants run first.
#[derive(Debug, Clone, Copy, PartialEq, Eq, Structural, PartialOrd, Ord)]
pub enum FramePhase {
    /// Encoder-level work before the frame pass.
    BeforeFrame,
    /// Ground content inside the shared multisampled pass.
    GroundMsaa,
    /// Screen-space overlays inside the shared multisampled pass.
    OverlayMsaa,
    /// Encoder-level work compositing onto the resolved target.
    Composite,
}

/// Position of a phase in frame order.
pub open spec fn phase_rank(p: FramePhase) -> nat {
    match p {
        FramePhase::BeforeFrame => 0,
        FramePhase::GroundMsaa => 1,
        FramePhase::OverlayMsaa => 2,
        FramePhase::Composite => 3,
    }
}

fn rank_of(p: FramePhase) -> (r: u8)
    ensures
        r == phase_rank(p),
{
    match p {
        FramePhase::BeforeFrame => 0,
        FramePhase::GroundMsaa => 1,
        FramePhase::OverlayMsaa => 2,
        FramePhase::Composite => 3,
    }
}

/// The declarative description of a pass: its identity and data flow.
pub struct PassDesc {
    pub name: &'static str,
    pub phase: FramePhase,
    pub reads: &'static [Res],
    pub writes: &'static [Res],
}

// ---------------------------------------------------------------------------
// The pass mask.

/// Runtime pass disable-set, keyed by pass name (or `name:detail` for one
/// instance, e.g. `layer:hillshade`). Disabling a pass skips its execution
/// but keeps its bookkeeping.
#[derive(Debug)]
pub struct PassMask {
    /// Disabled names, strictly increasing in byte order.
    disabled: Vec<String>,
}

/// The label of a pass instance: `name`, or `name:detail`.
pub open spec fn instance_label(name: Seq<char>, detail: Option<Seq<char>>) -> Seq<char> {
    match detail {
        Some(d) => name + seq![':'] + d,
        None => name,
    }
}

/// Whether a pass instance runs under the disable-set `disabled`: neither
/// its name nor its `name:detail` label is disabled.
pub open spec fn pass_enabled(
    disabled: Set<Seq<char>>,
    name: Seq<char>,
    detail: Option<Seq<char>>,
) -> bool {
    &&& !disabled.contains(name)
    &&& match detail {
        Some(d) => !disabled.contains(instance_label(name, Some(d))),
        None => true,
    }
}

/// The view of an optional string.
pub open spec fn opt_view(o: Option<&str>) -> Option<Seq<char>> {
    match o {
        Some(d) => Some(d@),
        None => None,
    }
}

/// Disabling a pass name masks every instance of that pass.
pub proof fn law_disabled_name_masks_every_instance(
    disabled: Set<Seq<char>>,
    name: Seq<char>,
    detail: Option<Seq<char>>,
)
    ensures
        !pass_enabled(disabled.insert(name), name, detail),
{
}

/// Enabling a pass name lets the plain pass run again.
pub proof fn law_enabled_name_runs(disabled: Set<Seq<char>>, name: Seq<char>)
    ensures
        pass_enabled(disabled.remove(name), name, None),
{
}

/// Disabling one instance (`name:d1`) leaves the plain pass and every other
/// instance of it as they were.
pub proof fn law_instance_disable_is_local(
    disabled: Set<Seq<char>>,
    name: Seq<char>,
    d1: Seq<char>,
    d2: Option<Seq<char>>,
)
    requires
        d2 != Some(d1),
    ensures
        !pass_enabled(disabled.insert(instance_label(name, Some(d1))), name, Some(d1)),
        pass_enabled(disabled.insert(instance_label(name, Some(d1))), name, d2) == pass_enabled(
            disabled,
            name,
            d2,
        ),
{
    let l1 = instance_label(name, Some(d1));
    assert(l1.len() > name.len());
    match d2 {
        Some(d) => {
            let l2 = instance_label(name, Some(d));
            if l1 == l2 {
                assert(d =~= l2.subrange(name.len() + 1int, l2.len() as int));
                assert(d1 =~= l1.subrange(name.len() + 1int, l1.len() as int));
            }
        },
        None => {},
    }
}

impl PassMask {
    /// The names in the set, in byte order.
    pub closed spec fn names(&self) -> Seq<Seq<char>> {
        self.disabled@.map_values(|s: String| s@)
    }

    /// The set of disabled names.
    pub open spec fn disabled_set(&self) -> Set<Seq<char>> {
        self.names().to_set()
    }

    #[verifier::type_invariant]
    closed spec fn sorted(&self) -> bool {
        strictly_sorted(self.names())
    }

    /// An empty mask: every pass enabled.
    pub fn new() -> (m: PassMask)
        ensures
            m.disabled_set() == Set::<Seq<char>>::empty(),
    {
        let m = PassMask { disabled: Vec::new() };
        assert(m.names() =~= Seq::<Seq<char>>::empty());
        m
    }

    /// Index of the first disabled name not sorting before `name`.
    fn position(&self, name: &str) -> (i: usize)
        ensures
            i <= self.names().len(),
            forall|j: int| 0 <= j < i ==> name_less(#[trigger] self.names()[j], name@),
            i < self.names().len() ==> !name_less(self.names()[i as int], name@),
    {
        let mut i: usize = 0;
        while i < self.disabled.len() && str_less(self.disabled[i].as_str(), name)
            invariant
                i <= self.disabled@.len(),
                self.names().len() == self.disabled@.len(),
                forall|j: int| 0 <= j < i ==> name_less(#[trigger] self.names()[j], name@),
            decreases self.disabled.len() - i,
        {
            assert(self.names()[i as int] == self.disabled@[i as int]@);
            i = i + 1;
        }
        proof {
            if i < self.disabled.len() {
                assert(self.names()[i as int] == self.disabled@[i as int]@);
            }
        }
        i
    }

    /// `name` is in the set.
    fn contains(&self, name: &str) -> (b: bool)
        ensures
            b == self.disabled_set().contains(name@),
    {
        proof {
            use_type_invariant(self);
        }
        let i = self.position(name);
        let found = i < self.disabled.len() && str_equal(self.disabled[i].as_str(), name);
        proof {
            let s = self.names();
            if found {
                assert(s[i as int] == self.disabled@[i as int]@);
                assert(s.contains(name@));
            } else if s.contains(name@) {
                let k = choose|k: int| 0 <= k < s.len() && s[k] == name@;
                if k < i {
                    lemma_name_less_irrefl(name@);
                } else if k > i {
                    assert(s[i as int] == self.disabled@[i as int]@);
                    lemma_name_less_total(s[i as int], name@);
                    lemma_name_less_trans(name@, s[i as int], s[k]);
                    lemma_name_less_irrefl(name@);
                } else {
                    assert(s[i as int] == self.disabled@[i as int]@);
                }
            }
        }
        found
    }

    /// Enable or disable the pass (or pass instance) called `name`.
    pub fn set_enabled(&mut self, name: &str, enabled: bool)
        ensures
            enabled ==> final(self).disabled_set() == old(self).disabled_set().remove(name@),
            !enabled ==> final(self).disabled_set() == old(self).disabled_set().insert(name@),
    {
        proof {
            use_type_invariant(&*self);
        }
        let i = self.position(name);
        let present = i < self.disabled.len() && str_equal(self.disabled[i].as_str(), name);
        let ghost s = self.names();
        if enabled {
            if present {
                let ghost before = self.disabled@;
                let mut v: Vec<String> = Vec::new();
                std::mem::swap(&mut v, &mut self.disabled);
                v.remove(i);
                proof {
                    assert(v@.map_values(|x: String| x@) =~= s.remove(i as int));
                    assert(s[i as int] == before[i as int]@);
                    lemma_remove_from_sorted(s, i as int);
                }
                self.disabled = v;
                proof {
                    assert(self.names() =~= s.remove(i as int));
                    assert(self.names().to_set() =~= s.to_set().remove(name@));
                }
            } else {
                proof {
                    if i < s.len() {
                        assert(s[i as int] == self.disabled@[i as int]@);
                    }
                    lemma_absent_when_not_found(s, name@, i as int);
                    assert(s.to_set().remove(name@) =~= s.to_set());
                }
            }
        } else {
            if present {
                proof {
                    assert(s[i as int] == self.disabled@[i as int]@);
                    assert(s.to_set().insert(name@) =~= s.to_set());
                }
            } else {
                proof {
                    if i < s.len() {
                        assert(s[i as int] == self.disabled@[i as int]@);
                    }
                    lemma_absent_when_not_found(s, name@, i as int);
                }
                let owned = String::from_str(name);
                let mut v: Vec<String> = Vec::new();
                std::mem::swap(&mut v, &mut self.disabled);
                v.insert(i, owned);
                proof {
                    assert(v@.map_values(|x: String| x@) =~= s.insert(i as int, name@));
                    lemma_insert_into_sorted(s, name@, i as int);
                }
                self.disabled = v;
                proof {
                    assert(self.names() =~= s.insert(i as int, name@));
                    assert(self.names().to_set() =~= s.to_set().insert(name@));
                }
            }
        }
    }

    /// A pass instance runs unless its name or its full `name:detail` label
    /// is disabled.
    pub fn enabled(&self, name: &str, detail: Option<&str>) -> (b: bool)
        ensures
            b == pass_enabled(self.disabled_set(), name@, opt_view(detail)),
    {
        if self.contains(name) {
            return false;
        }
        match detail {
            Some(d) => {
                let label = label_of(name, Some(d));
                !self.contains(label.as_str())
            },
            None => true,
        }
    }

    /// The disabled names, in byte order.
    pub fn disabled_passes(&self) -> (v: Vec<&str>)
        ensures
            v@.map_values(|s: &str| s@) == self.names(),
            strictly_sorted(self.names()),
            self.names().to_set() == self.disabled_set(),
    {
        proof {
            use_type_invariant(self);
        }
        let mut v: Vec<&str> = Vec::new();
        let mut i: usize = 0;
        while i < self.disabled.len()
            invariant
                i <= self.disabled@.len(),
                self.names().len() == self.disabled@.len(),
                v@.map_values(|s: &str| s@) == self.names().subrange(0, i as int),
            decreases self.disabled.len() - i,
        {
            let ghost old_v = v@;
            let item = self.disabled[i].as_str();
            v.push(item);
            proof {
                lemma_map_push(old_v, item, |x: &str| x@);
                assert(self.names()[i as int] == self.disabled@[i as int]@);
                assert(v@.map_values(|s: &str| s@) =~= self.names().subrange(0, i + 1));
            }
            i = i + 1;
        }
        proof {
            assert(self.names().subrange(0, i as int) =~= self.names());
        }
        v
    }

    /// No pass is disabled.
    pub fn is_empty(&self) -> (b: bool)
        ensures
            b == (self.disabled_set() == Set::<Seq<char>>::empty()),
    {
        let b = self.disabled.len() == 0;
        proof {
            if !b {
                assert(self.disabled_set().contains(self.names()[0]));
            } else {
                assert(self.disabled_set() =~= Set::<Seq<char>>::empty());
            }
        }
        b
    }

    /// A copy of this mask.
    pub fn duplicate(&self) -> (m: PassMask)
        ensures
            m.disabled_set() == self.disabled_set(),
    {
        proof {
            use_type_invariant(self);
        }
        let mut out: Vec<String> = Vec::new();
        let mut i: usize = 0;
        while i < self.disabled.len()
            invariant
                i <= self.disabled@.len(),
                self.names().len() == self.disabled@.len(),
                out@.map_values(|s: String| s@) == self.names().subrange(0, i as int),
            decreases self.disabled.len() - i,
        {
            let ghost old_out = out@;
            let copy = String::from_str(self.disabled[i].as_str());
            out.push(copy);
            proof {
                lemma_map_push(old_out, copy, |x: String| x@);
                assert(self.names()[i as int] == self.disabled@[i as int]@);
                assert(out@.map_values(|s: String| s@) =~= self.names().subrange(0, i + 1));
            }
            i = i + 1;
        }
        proof {
            assert(self.names().subrange(0, i as int) =~= self.names());
        }
        PassMask { disabled: out }
    }
}

impl Default for PassMask {
    fn default() -> (m: PassMask)
        ensures
            m.disabled_set() == Set::<Seq<char>>::empty(),
    {
        PassMask::new()
    }
}

impl Clone for PassMask {
    fn clone(&self) -> (m: PassMask)
        ensures
            m.disabled_set() == self.disabled_set(),
    {
        self.duplicate()
    }
}

/// When the name at `i` (the first not sorting before `name`) differs from
/// `name`, the name is absent.
proof fn lemma_absent_when_not_found(s: Seq<Seq<char>>, name: Seq<char>, i: int)
    requires
        strictly_sorted(s),
        0 <= i <= s.len(),
        forall|j: int| 0 <= j < i ==> name_less(#[trigger] s[j], name),
        i < s.len() ==> !name_less(s[i], name) && s[i] != name,
    ensures
        !s.contains(name),
{
    if s.contains(name) {
        let k = choose|k: int| 0 <= k < s.len() && s[k] == name;
        if k < i {
            lemma_name_less_irrefl(name);
        } else if k > i {
            lemma_name_less_total(s[i], name);
            lemma_name_less_trans(name, s[i], s[k]);
            lemma_name_less_irrefl(name);
        }
    }
}

proof fn lemma_remove_from_sorted(s: Seq<Seq<char>>, i: int)
    requires
        strictly_sorted(s),
        0 <= i < s.len(),
    ensures
        strictly_sorted(s.remove(i)),
        s.remove(i).to_set() == s.to_set().remove(s[i]),
{
    let t = s.remove(i);
    assert forall|a: int, b: int| 0 <= a < b < t.len() implies name_less(#[trigger] t[a], #[trigger] t[b]) by {
        let a2 = if a < i { a } else { a + 1 };
        let b2 = if b < i { b } else { b + 1 };
        assert(t[a] == s[a2]);
        assert(t[b] == s[b2]);
    }
    assert forall|x: Seq<char>| t.to_set().contains(x) <==> s.to_set().remove(s[i]).contains(x) by {
        if t.to_set().contains(x) {
            let k = choose|k: int| 0 <= k < t.len() && t[k] == x;
            let k2 = if k < i { k } else { k + 1 };
            assert(s[k2] == x);
            if k2 < i {
                lemma_name_less_distinct(s[k2], s[i]);
            } else {
                lemma_name_less_distinct(s[i], s[k2]);
            }
        }
        if s.to_set().remove(s[i]).contains(x) {
            let k = choose|k: int| 0 <= k < s.len() && s[k] == x;
            assert(k != i);
            let k2 = if k < i { k } else { k - 1 };
            assert(t[k2] == x);
        }
    }
    assert(t.to_set() =~= s.to_set().remove(s[i]));
}

proof fn lemma_insert_into_sorted(s: Seq<Seq<char>>, name: Seq<char>, i: int)
    requires
        strictly_sorted(s),
        0 <= i <= s.len(),
        forall|j: int| 0 <= j < i ==> name_less(#[trigger] s[j], name),
        i < s.len() ==> !name_less(s[i], name),
        !s.contains(name),
    ensures
        strictly_sorted(s.insert(i, name)),
        s.insert(i, name).to_set() == s.to_set().insert(name),
{
    let t = s.insert(i, name);
    if i < s.len() {
        lemma_name_less_total(s[i], name);
    }
    assert forall|a: int, b: int| 0 <= a < b < t.len() implies name_less(#[trigger] t[a], #[trigger] t[b]) by {
        if a < i && b < i {
        } else if a < i && b == i {
        } else if a < i {
            assert(t[b] == s[b - 1]);
        } else if a == i {
            assert(t[b] == s[b - 1]);
            if b - 1 > i {
                lemma_name_less_trans(name, s[i], s[b - 1]);
            }
        } else {
            assert(t[a] == s[a - 1]);
            assert(t[b] == s[b - 1]);
        }
    }
    assert forall|x: Seq<char>| t.to_set().contains(x) <==> s.to_set().insert(name).contains(x) by {
        if t.to_set().contains(x) {
            let k = choose|k: int| 0 <= k < t.len() && t[k] == x;
            if k < i {
                assert(s[k] == x);
            } else if k > i {
                assert(s[k - 1] == x);
            }
        }
        if s.to_set().contains(x) {
            let k = choose|k: int| 0 <= k < s.len() && s[k] == x;
            if k < i {
                assert(t[k] == x);
            } else {
                assert(t[k + 1] == x);
            }
        }
        if x == name {
            assert(t[i] == x);
        }
    }
    assert(t.to_set() =~= s.to_set().insert(name));
}

proof fn lemma_map_push<A, B>(s: Seq<A>, x: A, f: spec_fn(A) -> B)
    ensures
        s.push(x).map_values(f) == s.map_values(f).push(f(x)),
{
    assert(s.push(x).map_values(f) =~= s.map_values(f).push(f(x)));
}

/// `name`, or `name:detail`.
pub fn label_of(name: &str, detail: Option<&str>) -> (s: String)
    ensures
        s@ == instance_label(name@, match detail {
            Some(d) => Some(d@),
            None => None,
        }),
{
    let mut s = String::from_str(name);
    match detail {
        Some(d) => {
            proof {
                reveal_strlit(":");
            }
            s.append(":");
            s.append(d);
        },
        None => {},
    }
    s
}


// ---------------------------------------------------------------------------
// The per-frame graph.

/// One executed (or skipped) pass instance in the frame report.
#[derive(Debug)]
pub struct PassTiming {
    /// `name` or `name:detail`.
    pub label: String,
    pub phase: FramePhase,
    /// Wall time spent encoding/executing the pass.
    pub cpu: Duration,
    /// True when the pass was masked off this frame.
    pub skipped: bool,
}

impl Clone for PassTiming {
    fn clone(&self) -> (c: PassTiming)
        ensures
            c.label@ == self.label@,
            c.phase == self.phase,
            c.cpu == self.cpu,
            c.skipped == self.skipped,
    {
        PassTiming { label: self.label.clone(), phase: self.phase, cpu: self.cpu, skipped: self.skipped }
    }
}

/// Record of a pass that ran or was skipped, for data-flow validation.
pub struct Executed {
    pub reads: &'static [Res],
    pub writes: &'static [Res],
    pub label: String,
    pub skipped: bool,
}

/// The finished frame's pass report: what ran, in what order, how long.
#[derive(Debug, Clone)]
pub struct FrameGraphReport {
    pub passes: Vec<PassTiming>,
}

impl Default for FrameGraphReport {
    fn default() -> (r: FrameGraphReport)
        ensures
            r.passes@.len() == 0,
    {
        FrameGraphReport { passes: Vec::new() }
    }
}

/// Per-frame graph: the mask in force, the executed-pass record used for
/// validation, and the timing report.
pub struct FrameGraph {
    pub mask: PassMask,
    pub executed: Vec<Executed>,
    pub timings: Vec<PassTiming>,
}

/// `r` was written by a pass that ran before position `i`.
pub open spec fn written_before(ex: Seq<Executed>, i: int, r: Res) -> bool {
    exists|j: int| 0 <= j < i && !ex[j].skipped && (#[trigger] ex[j].writes@).contains(r)
}

/// The `k`-th read of pass `i` is neither persistent nor produced earlier in
/// the frame by a pass that ran.
pub open spec fn read_violates(ex: Seq<Executed>, i: int, k: int) -> bool {
    &&& 0 <= i < ex.len()
    &&& !ex[i].skipped
    &&& 0 <= k < ex[i].reads@.len()
    &&& !res_persistent(ex[i].reads@[k])
    &&& !written_before(ex, i, ex[i].reads@[k])
}

/// Every non-persistent read of every pass that ran was produced earlier in
/// the frame by a pass that ran.
pub open spec fn flow_valid(ex: Seq<Executed>) -> bool {
    forall|i: int, k: int| !#[trigger] read_violates(ex, i, k)
}

/// The report of a read before any write.
pub open spec fn violation_message(label: Seq<char>, r: Res) -> Seq<char> {
    "pass '"@ + label + "' reads "@ + res_name(r) + " before any pass wrote it this frame"@
}

/// What recording a pass instance appends to a graph.
pub open spec fn recorded(
    old_g: &FrameGraph,
    new_g: &FrameGraph,
    desc: &PassDesc,
    label: Seq<char>,
    skipped: bool,
) -> bool {
    let n = old_g.executed@.len();
    let m = old_g.timings@.len();
    &&& new_g.executed@.len() == n + 1
    &&& new_g.executed@.subrange(0, n as int) == old_g.executed@
    &&& new_g.executed@[n as int].reads@ == desc.reads@
    &&& new_g.executed@[n as int].writes@ == desc.writes@
    &&& new_g.executed@[n as int].label@ == label
    &&& new_g.executed@[n as int].skipped == skipped
    &&& new_g.timings@.len() == m + 1
    &&& new_g.timings@.subrange(0, m as int) == old_g.timings@
    &&& new_g.timings@[m as int].label@ == label
    &&& new_g.timings@[m as int].phase == desc.phase
    &&& new_g.timings@[m as int].skipped == skipped
    &&& new_g.mask.disabled_set() == old_g.mask.disabled_set()
}

impl FrameGraph {
    pub fn new(mask: PassMask) -> (g: FrameGraph)
        ensures
            g.mask.disabled_set() == mask.disabled_set(),
            g.executed@.len() == 0,
            g.timings@.len() == 0,
    {
        FrameGraph { mask, executed: Vec::new(), timings: Vec::new() }
    }

    /// The label of a pass instance: `name` or `name:detail`.
    pub fn label(desc: &PassDesc, detail: Option<&str>) -> (s: String)
        ensures
            s@ == instance_label(desc.name@, match detail {
                Some(d) => Some(d@),
                None => None,
            }),
    {
        label_of(desc.name, detail)
    }

    /// Append the bookkeeping of one pass instance.
    pub fn record(&mut self, desc: &PassDesc, detail: Option<&str>, cpu: Duration, skipped: bool)
        ensures
            recorded(old(self), final(self), desc, instance_label(desc.name@, match detail {
                Some(d) => Some(d@),
                None => None,
            }), skipped),
            final(self).timings@.last().cpu == cpu,
    {
        let label = Self::label(desc, detail);
        let copy = label.clone();
        let ghost e0 = self.executed@;
        let ghost t0 = self.timings@;
        self.executed.push(Executed { reads: desc.reads, writes: desc.writes, label: copy, skipped });
        self.timings.push(PassTiming { label, phase: desc.phase, cpu, skipped });
        proof {
            assert(self.executed@.subrange(0, e0.len() as int) =~= e0);
            assert(self.timings@.subrange(0, t0.len() as int) =~= t0);
        }
    }

    /// Run a pass instance now, unless the mask disables it, timing it on the
    /// platform clock and recording it either way. Returns `None` when the
    /// pass is masked off.
    pub fn run_timed<R, F: FnOnce() -> R>(
        &mut self,
        desc: &PassDesc,
        detail: Option<&str>,
        f: F,
    ) -> (res: Option<R>)
        requires
            f.requires(()),
        ensures
            ({
                let en = pass_enabled(old(self).mask.disabled_set(), desc.name@, opt_view(detail));
                let label = instance_label(desc.name@, opt_view(detail));
                &&& recorded(old(self), final(self), desc, label, !en)
                &&& en ==> res is Some && f.ensures((), res.unwrap())
                &&& !en ==> res is None
            }),
    {
        if !self.mask.enabled(desc.name, detail) {
            let zero = zero_duration();
            self.record(desc, detail, zero, true);
            return None;
        }
        let t0 = clock_now();
        let r = f();
        let took = clock_elapsed(&t0);
        self.record(desc, detail, took, false);
        Some(r)
    }

    /// Run a CPU-side pass immediately; `None` when the pass is masked off.
    pub fn run_now<R, F: FnOnce() -> R>(&mut self, desc: &PassDesc, f: F) -> (res: Option<R>)
        requires
            desc.phase == FramePhase::BeforeFrame || desc.phase == FramePhase::Composite,
            f.requires(()),
        ensures
            ({
                let en = pass_enabled(old(self).mask.disabled_set(), desc.name@, None);
                &&& recorded(old(self), final(self), desc, desc.name@, !en)
                &&& en ==> res is Some && f.ensures((), res.unwrap())
                &&& !en ==> res is None
            }),
    {
        self.run_timed(desc, None, f)
    }

    /// Record that the shared multisampled pass resolved into the frame
    /// target (bookkeeping only, no timing entry).
    pub fn mark_frame_resolved(&mut self)
        ensures
            final(self).executed@.len() == old(self).executed@.len() + 1,
            final(self).executed@.subrange(0, old(self).executed@.len() as int) == old(self).executed@,
            final(self).executed@.last().reads@ == Seq::<Res>::empty(),
            final(self).executed@.last().writes@ == seq![Res::FrameTarget],
            final(self).executed@.last().label@ == "frame-pass-resolve"@,
            !final(self).executed@.last().skipped,
            final(self).timings@ == old(self).timings@,
            final(self).mask.disabled_set() == old(self).mask.disabled_set(),
    {
        let ghost e0 = self.executed@;
        let writes: &'static [Res] = &[Res::FrameTarget];
        let reads: &'static [Res] = &[];
        self.executed.push(
            Executed {
                reads,
                writes,
                label: String::from_str("frame-pass-resolve"),
                skipped: false,
            },
        );
        proof {
            assert(self.executed@.subrange(0, e0.len() as int) =~= e0);
            assert(writes@ =~= seq![Res::FrameTarget]);
            assert(reads@ =~= Seq::<Res>::empty());
        }
    }

    /// Validate the executed frame's data flow: every non-persistent read
    /// must have been written by an earlier pass that ran this frame. The
    /// error names the first offending read.
    pub fn validate(&self) -> (res: Result<(), String>)
        ensures
            (forall|i: int| 0 <= i < self.executed@.len() ==> (#[trigger] self.executed@[i]).skipped) ==> res
                is Ok,
            match res {
                Ok(()) => flow_valid(self.executed@),
                Err(m) => exists|i: int, k: int|
                    {
                        &&& #[trigger] read_violates(self.executed@, i, k)
                        &&& forall|i2: int, k2: int|
                            (i2 < i || (i2 == i && k2 < k)) ==> !read_violates(
                                self.executed@,
                                i2,
                                k2,
                            )
                        &&& m@ == violation_message(
                            self.executed@[i].label@,
                            self.executed@[i].reads@[k],
                        )
                    },
            },
    {
        let ghost ex = self.executed@;
        let mut written: Vec<Res> = Vec::new();
        let mut i: usize = 0;
        while i < self.executed.len()
            invariant
                ex == self.executed@,
                i <= ex.len(),
                forall|r: Res| written@.contains(r) <==> written_before(ex, i as int, r),
                forall|i2: int, k2: int| i2 < i ==> !read_violates(ex, i2, k2),
            decreases self.executed.len() - i,
        {
            let ex_i = &self.executed[i];
            if !ex_i.skipped {
                let mut k: usize = 0;
                while k < ex_i.reads.len()
                    invariant
                        ex == self.executed@,
                        i < ex.len(),
                        *ex_i == ex[i as int],
                        !ex_i.skipped,
                        k <= ex_i.reads@.len(),
                        forall|r: Res| written@.contains(r) <==> written_before(ex, i as int, r),
                        forall|i2: int, k2: int|
                            (i2 < i || (i2 == i && k2 < k)) ==> !read_violates(ex, i2, k2),
                    decreases ex_i.reads.len() - k,
                {
                    let r = ex_i.reads[k];
                    if !r.persistent() && !contains_res(&written, r) {
                        let mut m = String::from_str("pass '");
                        m.append(ex_i.label.as_str());
                        m.append("' reads ");
                        m.append(r.name());
                        m.append(" before any pass wrote it this frame");
                        proof {
                            assert(read_violates(ex, i as int, k as int));
                        }
                        return Err(m);
                    }
                    k = k + 1;
                }
                let mut w: usize = 0;
                let ghost before = written@;
                while w < ex_i.writes.len()
                    invariant
                        ex == self.executed@,
                        i < ex.len(),
                        *ex_i == ex[i as int],
                        !ex_i.skipped,
                        w <= ex_i.writes@.len(),
                        forall|r: Res|
                            written@.contains(r) <==> (written_before(ex, i as int, r)
                                || ex_i.writes@.subrange(0, w as int).contains(r)),
                    decreases ex_i.writes.len() - w,
                {
                    let ghost prev = written@;
                    written.push(ex_i.writes[w]);
                    proof {
                        let x = ex_i.writes@[w as int];
                        assert(written@ == prev.push(x));
                        assert(ex_i.writes@.subrange(0, w + 1) =~= ex_i.writes@.subrange(
                            0,
                            w as int,
                        ).push(x));
                        assert forall|r: Res|
                            written@.contains(r) <==> (written_before(ex, i as int, r)
                                || ex_i.writes@.subrange(0, w + 1).contains(r)) by {
                            lemma_push_contains(prev, x, r);
                            lemma_push_contains(ex_i.writes@.subrange(0, w as int), x, r);
                        }
                    }
                    w = w + 1;
                }
                proof {
                    assert(ex_i.writes@.subrange(0, ex_i.writes@.len() as int) =~= ex_i.writes@);
                    assert forall|r: Res| written@.contains(r) <==> written_before(ex, i + 1, r) by {
                        if written_before(ex, i + 1, r) && !written_before(ex, i as int, r) {
                            let j = choose|j: int|
                                0 <= j < i + 1 && !ex[j].skipped && (#[trigger] ex[j].writes@).contains(r);
                            assert(j == i);
                        }
                        if written_before(ex, i as int, r) {
                            let j = choose|j: int|
                                0 <= j < i && !ex[j].skipped && (#[trigger] ex[j].writes@).contains(r);
                            assert(0 <= j < i + 1 && !ex[j].skipped && ex[j].writes@.contains(r));
                        }
                        if ex_i.writes@.contains(r) {
                            assert(0 <= i < i + 1 && !ex[i as int].skipped && ex[i as int].writes@.contains(r));
                        }
                    }
                    assert forall|i2: int, k2: int| i2 < i + 1 implies !read_violates(ex, i2, k2) by {
                        if i2 == i && 0 <= k2 < ex_i.reads@.len() {
                        }
                    }
                }
            } else {
                proof {
                    assert forall|r: Res| written@.contains(r) <==> written_before(ex, i + 1, r) by {
                        if written_before(ex, i + 1, r) {
                            let j = choose|j: int|
                                0 <= j < i + 1 && !ex[j].skipped && (#[trigger] ex[j].writes@).contains(r);
                            assert(j < i);
                        }
                        if written_before(ex, i as int, r) {
                            let j = choose|j: int|
                                0 <= j < i && !ex[j].skipped && (#[trigger] ex[j].writes@).contains(r);
                            assert(0 <= j < i + 1 && !ex[j].skipped && ex[j].writes@.contains(r));
                        }
                    }
                }
            }
            i = i + 1;
        }
        Ok(())
    }

    /// Consume the graph, returning the frame's pass report. The frame's
    /// data flow must be valid.
    pub fn finish(self) -> (report: FrameGraphReport)
        requires
            flow_valid(self.executed@),
        ensures
            report.passes@ == self.timings@,
    {
        FrameGraphReport { passes: self.timings }
    }
}

/// A frame in which every pass was skipped is valid: a pass that did not
/// run reads nothing.
pub proof fn law_all_skipped_is_valid(ex: Seq<Executed>)
    requires
        forall|i: int| 0 <= i < ex.len() ==> (#[trigger] ex[i]).skipped,
    ensures
        flow_valid(ex),
{
    assert forall|i: int, k: int| !#[trigger] read_violates(ex, i, k) by {
        if 0 <= i < ex.len() {
            assert(ex[i].skipped);
        }
    }
}

/// Validity does not depend on what skipped passes read: two frames that
/// agree on which passes ran, on every pass's writes, and on the reads of
/// the passes that ran are both valid or both invalid.
pub proof fn law_skipped_reads_are_ignored(ex1: Seq<Executed>, ex2: Seq<Executed>)
    requires
        ex1.len() == ex2.len(),
        forall|i: int| 0 <= i < ex1.len() ==> (#[trigger] ex1[i]).skipped == ex2[i].skipped,
        forall|i: int| 0 <= i < ex1.len() ==> (#[trigger] ex1[i]).writes@ == ex2[i].writes@,
        forall|i: int| 0 <= i < ex1.len() && !ex1[i].skipped ==> (#[trigger] ex1[i]).reads@ == ex2[i].reads@,
    ensures
        flow_valid(ex1) == flow_valid(ex2),
{
    assert forall|i: int, r: Res| 0 <= i <= ex1.len() implies #[trigger] written_before(ex1, i, r) == written_before(ex2, i, r) by {
        if written_before(ex1, i, r) {
            let j = choose|j: int| 0 <= j < i && !ex1[j].skipped && (#[trigger] ex1[j].writes@).contains(r);
            assert(ex2[j].writes@ == ex1[j].writes@);
            assert(0 <= j < i && !ex2[j].skipped && ex2[j].writes@.contains(r));
        }
        if written_before(ex2, i, r) {
            let j = choose|j: int| 0 <= j < i && !ex2[j].skipped && (#[trigger] ex2[j].writes@).contains(r);
            assert(ex2[j].writes@ == ex1[j].writes@);
            assert(0 <= j < i && !ex1[j].skipped && ex1[j].writes@.contains(r));
        }
    }
    assert forall|i: int, k: int| #[trigger] read_violates(ex1, i, k) == read_violates(ex2, i, k) by {
        if 0 <= i < ex1.len() && !ex1[i].skipped {
            assert(ex1[i].reads@ == ex2[i].reads@);
        }
    }
    if !flow_valid(ex1) {
        let (i, k) = choose|i: int, k: int| #[trigger] read_violates(ex1, i, k);
        assert(read_violates(ex2, i, k));
    }
    if !flow_valid(ex2) {
        let (i, k) = choose|i: int, k: int| #[trigger] read_violates(ex2, i, k);
        assert(read_violates(ex1, i, k));
    }
}

/// A pass that ran and reads a per-frame resource that no earlier pass
/// that ran wrote makes the frame invalid.
pub proof fn law_unwritten_read_is_invalid(ex: Seq<Executed>, i: int, k: int)
    requires
        0 <= i < ex.len(),
        !ex[i].skipped,
        0 <= k < ex[i].reads@.len(),
        !res_persistent(ex[i].reads@[k]),
        forall|j: int| 0 <= j < i && !ex[j].skipped ==> !(#[trigger] ex[j].writes@).contains(ex[i].reads@[k]),
    ensures
        !flow_valid(ex),
{
    assert(read_violates(ex, i, k));
}

/// A frame is valid when every per-frame resource that a pass that ran
/// reads was written by an earlier pass that ran.
pub proof fn law_written_reads_are_valid(ex: Seq<Executed>)
    requires
        forall|i: int, k: int|
            0 <= i < ex.len() && !ex[i].skipped && 0 <= k < ex[i].reads@.len() && !res_persistent(
                #[trigger] ex[i].reads@[k],
            ) ==> exists|j: int| 0 <= j < i && !ex[j].skipped && (#[trigger] ex[j].writes@).contains(ex[i].reads@[k]),
    ensures
        flow_valid(ex),
{
    assert forall|i: int, k: int| !#[trigger] read_violates(ex, i, k) by {
        if read_violates(ex, i, k) {
            let r = ex[i].reads@[k];
            let j = choose|j: int| 0 <= j < i && !ex[j].skipped && (#[trigger] ex[j].writes@).contains(r);
            assert(written_before(ex, i, r));
        }
    }
}

proof fn lemma_push_contains<A>(s: Seq<A>, x: A, r: A)
    ensures
        s.push(x).contains(r) == (s.contains(r) || r == x),
{
    if s.push(x).contains(r) && r != x {
        let q = choose|q: int| 0 <= q < s.push(x).len() && s.push(x)[q] == r;
        assert(s[q] == r);
    }
    if s.contains(r) {
        let q = choose|q: int| 0 <= q < s.len() && s[q] == r;
        assert(s.push(x)[q] == r);
    }
    if r == x {
        assert(s.push(x)[s.len() as int] == r);
    }
}

fn contains_res(v: &Vec<Res>, r: Res) -> (b: bool)
    ensures
        b == v@.contains(r),
{
    let mut i: usize = 0;
    while i < v.len()
        invariant
            i <= v@.len(),
            forall|j: int| 0 <= j < i ==> v@[j] != r,
        decreases v.len() - i,
    {
        if v[i] == r {
            return true;
        }
        i = i + 1;
    }
    false
}

// ---------------------------------------------------------------------------
// The schedule of the shared multisampled pass.

/// How many of the first `upto` phases have rank `rank`.
pub open spec fn rank_count(phases: Seq<FramePhase>, rank: nat, upto: int) -> nat
    decreases upto,
{
    if upto <= 0 {
        0
    } else {
        rank_count(phases, rank, upto - 1) + if phase_rank(phases[upto - 1]) == rank {
            1nat
        } else {
            0nat
        }
    }
}

/// How many of the first `upto` phases have rank below `rank`.
pub open spec fn ranks_below(phases: Seq<FramePhase>, rank: nat, upto: int) -> nat
    decreases rank,
{
    if rank == 0 {
        0
    } else {
        ranks_below(phases, (rank - 1) as nat, upto) + rank_count(phases, (rank - 1) as nat, upto)
    }
}

/// `order` lists the indices of `phases` by phase, in increasing index order
/// within a phase: a stable sort by phase.
pub open spec fn is_stable_phase_order(phases: Seq<FramePhase>, order: Seq<usize>) -> bool {
    &&& order.len() == phases.len()
    &&& forall|a: int| 0 <= a < order.len() ==> #[trigger] order[a] < phases.len()
    &&& forall|idx: usize| idx < phases.len() ==> #[trigger] order.contains(idx)
    &&& forall|a: int, b: int|
        0 <= a < b < order.len() ==> {
            ||| phase_rank(phases[#[trigger] order[a] as int]) < phase_rank(
                phases[#[trigger] order[b] as int],
            )
            ||| (phase_rank(phases[order[a] as int]) == phase_rank(phases[order[b] as int])
                && order[a] < order[b])
        }
}

proof fn lemma_ranks_total(phases: Seq<FramePhase>, upto: int)
    requires
        0 <= upto <= phases.len(),
    ensures
        ranks_below(phases, 4, upto) == upto,
    decreases upto,
{
    reveal_with_fuel(ranks_below, 5);
    if upto > 0 {
        lemma_ranks_total(phases, upto - 1);
    }
}

/// The schedule of the shared multisampled pass: contribution indices
/// sorted by phase, stable within a phase (registration order).
pub fn msaa_order(phases: &[FramePhase]) -> (order: Vec<usize>)
    ensures
        is_stable_phase_order(phases@, order@),
{
    let ghost ph = phases@;
    let n = phases.len();
    let mut out: Vec<usize> = Vec::new();
    let mut rank: u8 = 0;
    while rank < 4
        invariant
            ph == phases@,
            n == ph.len(),
            rank <= 4,
            out@.len() == ranks_below(ph, rank as nat, n as int),
            forall|a: int| 0 <= a < out@.len() ==> #[trigger] out@[a] < n && phase_rank(ph[out@[a] as int]) < rank,
            forall|idx: usize| idx < n && phase_rank(ph[idx as int]) < rank ==> #[trigger] out@.contains(idx),
            forall|a: int, b: int|
                0 <= a < b < out@.len() ==> {
                    ||| phase_rank(ph[#[trigger] out@[a] as int]) < phase_rank(ph[#[trigger] out@[b] as int])
                    ||| (phase_rank(ph[out@[a] as int]) == phase_rank(ph[out@[b] as int]) && out@[a] < out@[b])
                },
        decreases 4 - rank,
    {
        let mut i: usize = 0;
        while i < n
            invariant
                ph == phases@,
                n == ph.len(),
                rank < 4,
                i <= n,
                out@.len() == ranks_below(ph, rank as nat, n as int) + rank_count(ph, rank as nat, i as int),
                forall|a: int| 0 <= a < out@.len() ==> #[trigger] out@[a] < n && (phase_rank(ph[out@[a] as int]) < rank
                    || (phase_rank(ph[out@[a] as int]) == rank && out@[a] < i)),
                forall|idx: usize| idx < n && (phase_rank(ph[idx as int]) < rank || (phase_rank(ph[idx as int]) == rank && idx < i))
                    ==> #[trigger] out@.contains(idx),
                forall|a: int, b: int|
                    0 <= a < b < out@.len() ==> {
                        ||| phase_rank(ph[#[trigger] out@[a] as int]) < phase_rank(ph[#[trigger] out@[b] as int])
                        ||| (phase_rank(ph[out@[a] as int]) == phase_rank(ph[out@[b] as int]) && out@[a] < out@[b])
                    },
            decreases n - i,
        {
            if rank_of(phases[i]) == rank {
                let ghost prev = out@;
                out.push(i);
                proof {
                    assert forall|idx: usize| idx < n && (phase_rank(ph[idx as int]) < rank || (phase_rank(ph[idx as int]) == rank && idx < i + 1))
                        implies #[trigger] out@.contains(idx) by {
                        if idx == i {
                            assert(out@[prev.len() as int] == idx);
                        } else {
                            assert(prev.contains(idx));
                            let q = choose|q: int| 0 <= q < prev.len() && prev[q] == idx;
                            assert(out@[q] == idx);
                        }
                    }
                }
            }
            i = i + 1;
        }
        proof {
            reveal_with_fuel(ranks_below, 2);
        }
        rank = rank + 1;
    }
    proof {
        lemma_ranks_total(ph, n as int);
    }
    out
}

/// A stable phase order lists every contribution once.
proof fn lemma_stable_order_distinct(phases: Seq<FramePhase>, order: Seq<usize>)
    requires
        is_stable_phase_order(phases, order),
    ensures
        forall|a: int, b: int| 0 <= a < b < order.len() ==> #[trigger] order[a] != #[trigger] order[b],
{
    assert forall|a: int, b: int| 0 <= a < b < order.len() implies #[trigger] order[a] != #[trigger] order[b] by {
        if order[a] == order[b] {
            assert(phase_rank(phases[order[a] as int]) == phase_rank(phases[order[b] as int]));
        }
    }
}

/// The contributions of the shared multisampled pass (`phases[i]` is the
/// phase of `nodes[i]`), put in schedule order: by phase, registration
/// order within a phase.
pub fn in_msaa_order<T>(nodes: Vec<T>, phases: &[FramePhase]) -> (out: Vec<T>)
    requires
        nodes@.len() == phases@.len(),
    ensures
        out@.len() == nodes@.len(),
        exists|order: Seq<usize>|
            is_stable_phase_order(phases@, order) && forall|k: int|
                0 <= k < out@.len() ==> #[trigger] out@[k] == nodes@[order[k] as int],
{
    let order = msaa_order(phases);
    proof {
        lemma_stable_order_distinct(phases@, order@);
    }
    let ghost orig = nodes@;
    let n = nodes.len();
    let mut nodes = nodes;
    let mut slots: Vec<Option<T>> = Vec::new();
    let mut i: usize = 0;
    while i < n
        invariant
            i <= n,
            slots@.len() == i,
            forall|j: int| 0 <= j < i ==> (#[trigger] slots@[j]) is None,
        decreases n - i,
    {
        slots.push(None);
        i = i + 1;
    }
    while nodes.len() > 0
        invariant
            n == orig.len(),
            nodes@.len() <= n,
            nodes@ == orig.subrange(0, nodes@.len() as int),
            slots@.len() == n,
            forall|j: int| nodes@.len() <= j < n ==> #[trigger] slots@[j] == Some(orig[j]),
        decreases nodes@.len(),
    {
        let x = nodes.pop().unwrap();
        let k = nodes.len();
        assert(x == orig[k as int]);
        slots.set(k, Some(x));
        assert(nodes@ =~= orig.subrange(0, k as int));
    }
    let mut out: Vec<T> = Vec::new();
    let mut a: usize = 0;
    while a < n
        invariant
            n == orig.len(),
            n == phases@.len(),
            is_stable_phase_order(phases@, order@),
            forall|x: int, y: int| 0 <= x < y < order@.len() ==> #[trigger] order@[x] != #[trigger] order@[y],
            slots@.len() == n,
            a <= n,
            out@.len() == a,
            forall|k: int| 0 <= k < a ==> #[trigger] out@[k] == orig[order@[k] as int],
            forall|b: int| a <= b < n ==> #[trigger] slots@[order@[b] as int] == Some(orig[order@[b] as int]),
        decreases n - a,
    {
        let idx = order[a];
        assert(slots@[order@[a as int] as int] == Some(orig[order@[a as int] as int]));
        let mut taken: Option<T> = None;
        let ghost before = slots@;
        slots.set_and_swap(idx, &mut taken);
        proof {
            assert forall|b: int| a + 1 <= b < n implies #[trigger] slots@[order@[b] as int] == Some(
                orig[order@[b] as int],
            ) by {
                assert(order@[a as int] != order@[b]);
                assert(before[order@[b] as int] == Some(orig[order@[b] as int]));
            }
        }
        out.push(taken.unwrap());
        a = a + 1;
    }
    proof {
        assert(is_stable_phase_order(phases@, order@) && forall|k: int|
            0 <= k < out@.len() ==> #[trigger] out@[k] == orig[order@[k] as int]);
    }
    out
}

} // verus!
