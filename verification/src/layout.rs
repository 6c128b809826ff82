//! Layout state owned by every widget: dirty tracking, explicit size overrides, the
//! constraints reported to the parent, and the flow caches.

use vstd::prelude::*;
use crate::geometry::{Axis2D, Vec2, Rect};
use crate::spacing::Spacing;
use crate::align::{AlignOverride, FlexAlign};

verus! {

/// Severity of a pending change.
#[derive(Clone, Copy, Debug, PartialEq, Eq, Structural)]
pub enum DirtyImpact {
    /// No pending change.
    Clean,
    /// A repaint is required.
    Paint,
    /// A layout and repaint are required.
    Layout,
}

impl DirtyImpact {
    /// The severity rank: `0` for none, `1` for paint, `2` for layout.
    pub open spec fn rank(self) -> int {
        match self {
            DirtyImpact::Clean => 0,
            DirtyImpact::Paint => 1,
            DirtyImpact::Layout => 2,
        }
    }

    /// The more severe of two impacts.
    pub open spec fn spec_max(self, other: DirtyImpact) -> DirtyImpact {
        if self.rank() >= other.rank() {
            self
        } else {
            other
        }
    }

    /// Returns the more severe of `self` and `rhs`, the way `|=` combines impacts.
    pub fn merge(self, rhs: DirtyImpact) -> (r: DirtyImpact)
        ensures
            r == self.spec_max(rhs),
    {
        let a: u8 = match self {
            DirtyImpact::Clean => 0,
            DirtyImpact::Paint => 1,
            DirtyImpact::Layout => 2,
        };
        let b: u8 = match rhs {
            DirtyImpact::Clean => 0,
            DirtyImpact::Paint => 1,
            DirtyImpact::Layout => 2,
        };
        if a >= b {
            self
        } else {
            rhs
        }
    }

    /// Raises `self` to at least `rhs`.
    pub fn merge_assign(&mut self, rhs: DirtyImpact)
        ensures
            *final(self) == old(self).spec_max(rhs),
    {
        *self = self.merge(rhs);
    }

    /// Returns the variant's name.
    pub fn label(&self) -> (r: &'static str)
        ensures
            r@ == (match *self {
                DirtyImpact::Clean => "None"@,
                DirtyImpact::Paint => "Paint"@,
                DirtyImpact::Layout => "Layout"@,
            }),
    {
        match self {
            DirtyImpact::Clean => "None",
            DirtyImpact::Paint => "Paint",
            DirtyImpact::Layout => "Layout",
        }
    }
}

/// Render layer used to order widgets that overlap.
#[derive(Clone, Copy, Debug, PartialEq, Eq, Structural)]
pub enum Layer {
    /// The bottom render layer.
    Bottom,
    /// The middle render layer.
    Middle,
    /// The top render layer.
    Top,
}

impl Layer {
    /// Returns the variant's name.
    pub fn label(&self) -> (r: &'static str)
        ensures
            r@ == (match *self {
                Layer::Bottom => "Bottom"@,
                Layer::Middle => "Middle"@,
                Layer::Top => "Top"@,
            }),
    {
        match self {
            Layer::Bottom => "Bottom",
            Layer::Middle => "Middle",
            Layer::Top => "Top",
        }
    }
}

/// Interaction state of a widget, used to drive styling and event routing.
#[derive(Clone, Copy, Debug, PartialEq, Eq, Structural)]
pub enum WidgetState {
    /// Neither focused nor hovered.
    Idle,
    /// Pointer is over the widget.
    Hover,
    /// Widget is the focused leaf.
    Focused,
    /// Widget is the focused leaf and the pointer is over it.
    FocusedHover,
    /// The widget is being actively manipulated.
    Active,
}

impl WidgetState {
    /// Returns the variant's name.
    pub fn label(&self) -> (r: &'static str)
        ensures
            r@ == (match *self {
                WidgetState::Idle => "None"@,
                WidgetState::Hover => "Hover"@,
                WidgetState::Focused => "Focused"@,
                WidgetState::FocusedHover => "FocusedHover"@,
                WidgetState::Active => "Active"@,
            }),
    {
        match self {
            WidgetState::Idle => "None",
            WidgetState::Hover => "Hover",
            WidgetState::Focused => "Focused",
            WidgetState::FocusedHover => "FocusedHover",
            WidgetState::Active => "Active",
        }
    }
}

/// Where the widget id counter starts: id zero stands for no widget and is never handed out.
pub const WIDGET_ID_START: u64 = 1;

/// Hands out widget ids: returns the counter's value and advances it, so ids never repeat.
pub fn next_widget_id(counter: &mut u64) -> (id: u64)
    requires
        *old(counter) < u64::MAX,
    ensures
        id == *old(counter),
        *final(counter) == *old(counter) + 1,
{
    let id = *counter;
    *counter = id + 1;
    id
}

/// A source of widget ids: it never hands out zero, and never the same id twice.
pub struct WidgetIds {
    next: u64,
}

impl WidgetIds {
    #[verifier::type_invariant]
    spec fn inv(self) -> bool {
        self.next >= WIDGET_ID_START
    }

    /// The id the next call of [`WidgetIds::fresh`] hands out.
    pub closed spec fn next(self) -> u64 {
        self.next
    }

    /// A source that starts at [`WIDGET_ID_START`].
    pub fn new() -> (r: WidgetIds)
        ensures
            r.next() == WIDGET_ID_START,
    {
        WidgetIds { next: WIDGET_ID_START }
    }

    /// Hands out a fresh id: never zero, and below every id handed out later; `None` once the
    /// ids are used up.
    pub fn fresh(&mut self) -> (r: Option<u64>)
        ensures
            old(self).next() < u64::MAX <==> r is Some,
            r matches Some(id) ==> {
                &&& id == old(self).next()
                &&& id != 0
                &&& final(self).next() == id + 1
            },
            r is None ==> final(self).next() == old(self).next(),
            final(self).next() >= old(self).next(),
    {
        proof {
            use_type_invariant(&*self);
        }
        if self.next == u64::MAX {
            return None;
        }
        let mut counter = self.next;
        let id = next_widget_id(&mut counter);
        self.next = counter;
        Some(id)
    }
}

/// Ids a [`WidgetIds`] hands out differ: an id handed out before the source reached `later`'s
/// turn is below it, and none is zero.
pub proof fn lemma_fresh_ids_differ(first: u64, after_first: WidgetIds, later_source: WidgetIds, later: u64)
    requires
        after_first.next() == first + 1,
        later_source.next() >= after_first.next(),
        later == later_source.next(),
    ensures
        later != first,
        later > first,
{
}

/// Bit set of layout flags.
#[derive(Clone, Copy, Debug, PartialEq, Eq, Structural)]
pub struct LayoutFlags(pub u8);

impl LayoutFlags {
    /// A repaint is pending.
    pub const DIRTY_PAINT: u8 = 1;
    /// A layout is pending.
    pub const DIRTY_LAYOUT: u8 = 2;
    /// The widget overflowed its allocated size.
    pub const OVERFLOWS: u8 = 4;
    /// The cached layout-pass flow result is valid.
    pub const FLOW_LAYOUT_VALID: u8 = 8;

    /// Whether `bit` is set.
    pub open spec fn has(self, bit: u8) -> bool {
        self.0 & bit != 0
    }

    /// Returns whether `bit` is set.
    pub fn get(self, bit: u8) -> (r: bool)
        ensures
            r == self.has(bit),
    {
        self.0 & bit != 0
    }

    /// Sets or clears `bit`.
    pub fn set(&mut self, bit: u8, value: bool)
        ensures
            final(self).0 == (if value {
                old(self).0 | bit
            } else {
                old(self).0 & !bit
            }),
    {
        if value {
            self.0 = self.0 | bit;
        } else {
            self.0 = self.0 & !bit;
        }
    }
}

/// Setting one of the four flags makes it read back as the value set and leaves the other
/// three flags as they were.
pub proof fn lemma_flag_set_get(f: u8, bit: u8, other: u8, value: bool)
    requires
        bit == 1 || bit == 2 || bit == 4 || bit == 8,
        other == 1 || other == 2 || other == 4 || other == 8,
        other != bit,
    ensures
        ({
            let g = if value {
                f | bit
            } else {
                f & !bit
            };
            &&& (g & bit != 0) == value
            &&& (g & other != 0) == (f & other != 0)
        }),
{
    if value {
        assert((f | bit) & bit != 0 && (((f | bit) & other != 0) == (f & other != 0))) by (bit_vector)
            requires
                bit == 1u8 || bit == 2u8 || bit == 4u8 || bit == 8u8,
                other == 1u8 || other == 2u8 || other == 4u8 || other == 8u8,
                other != bit,
        ;
    } else {
        assert((f & !bit) & bit == 0 && (((f & !bit) & other != 0) == (f & other != 0))) by (bit_vector)
            requires
                bit == 1u8 || bit == 2u8 || bit == 4u8 || bit == 8u8,
                other == 1u8 || other == 2u8 || other == 4u8 || other == 8u8,
                other != bit,
        ;
    }
}

/// Min, max, and preferred sizes a widget reports to its parent.
#[derive(Clone, Copy, Debug, PartialEq, Eq, Structural)]
pub struct Constraints {
    /// The smallest acceptable size.
    pub min_size: Vec2<u16>,
    /// The largest acceptable size.
    pub max_size: Vec2<u16>,
    /// The preferred size.
    pub preferred_size: Vec2<u16>,
}

/// One cached flow: the size a widget was offered and the size it reported.
#[derive(Clone, Copy, Debug, PartialEq, Eq, Structural)]
pub struct FlowSlot {
    /// The content size offered.
    pub input_size: Vec2<u16>,
    /// The content size reported.
    pub output_size: Vec2<u16>,
}

/// Capacity of a [`FlowMeasureCache`].
pub const FLOW_MEASURE_CACHE_SIZE: usize = 4;

/// Whether no two entries share an input size.
pub open spec fn keys_distinct(v: Seq<FlowSlot>) -> bool {
    forall|i: int, j: int|
        0 <= i < v.len() && 0 <= j < v.len() && i != j ==> #[trigger] v[i].input_size
            != #[trigger] v[j].input_size
}

/// Whether some entry has input size `k`.
pub open spec fn has_key(v: Seq<FlowSlot>, k: Vec2<u16>) -> bool {
    exists|i: int| 0 <= i < v.len() && #[trigger] v[i].input_size == k
}

/// The position of an entry with input size `k`, when there is one.
pub open spec fn key_index(v: Seq<FlowSlot>, k: Vec2<u16>) -> int {
    choose|i: int| 0 <= i < v.len() && #[trigger] v[i].input_size == k
}

/// The output cached for input size `k`, if any.
pub open spec fn lookup(v: Seq<FlowSlot>, k: Vec2<u16>) -> Option<Vec2<u16>> {
    if has_key(v, k) {
        Some(v[key_index(v, k)].output_size)
    } else {
        None
    }
}

/// The entries after `e` is inserted: an entry with the same input moves to the back with the
/// new output; otherwise `e` is appended, evicting the oldest entry when the cache is full.
pub open spec fn spec_insert(v: Seq<FlowSlot>, e: FlowSlot) -> Seq<FlowSlot> {
    if has_key(v, e.input_size) {
        v.remove(key_index(v, e.input_size)).push(e)
    } else if v.len() < 4 {
        v.push(e)
    } else {
        v.drop_first().push(e)
    }
}

/// The entries after a hit on input size `k`: the hit entry moves to the back.
pub open spec fn spec_promote(v: Seq<FlowSlot>, k: Vec2<u16>) -> Seq<FlowSlot> {
    if has_key(v, k) {
        let i = key_index(v, k);
        v.remove(i).push(v[i])
    } else {
        v
    }
}

/// Small most-recently-used cache of measure-pass flow results, oldest entry first.
#[derive(Clone, Copy)]
pub struct FlowMeasureCache {
    entries: [FlowSlot; 4],
    len: u8,
    last_output: Vec2<u16>,
}

impl View for FlowMeasureCache {
    /// The entries, oldest first, and the output size of the most recently inserted one
    /// (zero when there is none).
    type V = (Seq<FlowSlot>, Vec2<u16>);

    closed spec fn view(&self) -> (Seq<FlowSlot>, Vec2<u16>) {
        (
            self.entries@.subrange(0, self.len as int),
            if self.len == 0 {
                Vec2 { x: 0u16, y: 0u16 }
            } else {
                self.last_output
            },
        )
    }
}

impl FlowMeasureCache {
    #[verifier::type_invariant]
    spec fn inv(self) -> bool {
        &&& self.len <= 4
        &&& keys_distinct(self.entries@.subrange(0, self.len as int))
    }

    /// Creates an empty cache.
    pub fn new() -> (r: FlowMeasureCache)
        ensures
            r@.0 == Seq::<FlowSlot>::empty(),
            r@.1 == (Vec2 { x: 0u16, y: 0u16 }),
    {
        let zero = Vec2 { x: 0u16, y: 0u16 };
        let slot = FlowSlot { input_size: zero, output_size: zero };
        let r = FlowMeasureCache { entries: [slot, slot, slot, slot], len: 0, last_output: zero };
        assert(r.entries@.subrange(0, 0) =~= Seq::<FlowSlot>::empty());
        r
    }

    /// Returns the number of entries.
    pub fn get_len(&self) -> (r: usize)
        ensures
            r == self@.0.len(),
            r <= 4,
            keys_distinct(self@.0),
    {
        proof {
            use_type_invariant(self);
        }
        self.len as usize
    }

    /// Returns the cached output for `input_size` and makes that entry the most recent, or
    /// `None` when not cached.
    pub fn find_and_promote(&mut self, input_size: Vec2<u16>) -> (r: Option<Vec2<u16>>)
        ensures
            r == lookup(old(self)@.0, input_size),
            final(self)@.0 == spec_promote(old(self)@.0, input_size),
            final(self)@.1 == old(self)@.1,
    {
        proof {
            use_type_invariant(&*self);
        }
        let ghost v = self@.0;
        assert(v == old(self)@.0);
        let len = self.len as usize;
        let mut i: usize = 0;
        while i < len
            invariant
                0 <= i <= len,
                len == v.len(),
                len <= 4,
                self.len as int == len as int,
                v == self@.0,
                v == old(self)@.0,
                v == self.entries@.subrange(0, len as int),
                keys_distinct(v),
                self.last_output == old(self).last_output,
                forall|j: int| 0 <= j < i ==> v[j].input_size != input_size,
            decreases len - i,
        {
            if self.entries[i].input_size == input_size {
                let entry = self.entries[i];
                proof {
                    assert(v[i as int] == entry);
                    assert(has_key(v, input_size));
                    assert(key_index(v, input_size) == i as int);
                }
                let mut entries = self.entries;
                if i != len - 1 {
                    let mut j: usize = i;
                    while j < len - 1
                        invariant
                            i <= j <= len - 1,
                            len <= 4,
                            entries@.len() == 4,
                            forall|t: int| 0 <= t < i ==> entries@[t] == v[t],
                            forall|t: int| i <= t < j ==> entries@[t] == v[t + 1],
                            forall|t: int| j <= t < len ==> entries@[t] == v[t],
                        decreases len - 1 - j,
                    {
                        entries[j] = entries[j + 1];
                        j += 1;
                    }
                    entries[len - 1] = entry;
                }
                let ghost nv = v.remove(i as int).push(entry);
                assert(entries@.subrange(0, len as int) =~= nv);
                assert(keys_distinct(nv));
                self.entries = entries;
                assert(self@.0 == nv);
                assert(nv == spec_promote(v, input_size));
                assert(lookup(v, input_size) == Some(entry.output_size));
                return Some(entry.output_size);
            }
            i += 1;
        }
        assert(!has_key(v, input_size));
        assert(self@.0 == v);
        None
    }

    /// Inserts or updates the entry for `input_size`, evicting the oldest entry when full.
    pub fn insert(&mut self, input_size: Vec2<u16>, output_size: Vec2<u16>)
        ensures
            final(self)@.0 == spec_insert(
                old(self)@.0,
                FlowSlot { input_size: input_size, output_size: output_size },
            ),
            final(self)@.1 == output_size,
    {
        proof {
            use_type_invariant(&*self);
        }
        self.last_output = output_size;
        let ghost v = self@.0;
        let entry = FlowSlot { input_size, output_size };
        let len = self.len as usize;
        let mut i: usize = 0;
        while i < len
            invariant
                0 <= i <= len,
                len == v.len(),
                len <= 4,
                self.len as int == len as int,
                v == self@.0,
                v == old(self)@.0,
                v == self.entries@.subrange(0, len as int),
                keys_distinct(v),
                entry == (FlowSlot { input_size: input_size, output_size: output_size }),
                self.last_output == output_size,
                forall|j: int| 0 <= j < i ==> v[j].input_size != input_size,
            decreases len - i,
        {
            if self.entries[i].input_size == input_size {
                let found = self.entries[i];
                proof {
                    assert(v[i as int] == found);
                    assert(has_key(v, input_size));
                    assert(key_index(v, input_size) == i as int);
                }
                let mut entries = self.entries;
                let mut j: usize = i;
                while j < len - 1
                    invariant
                        i <= j <= len - 1,
                        len <= 4,
                        v == old(self)@.0,
                        entry == (FlowSlot { input_size: input_size, output_size: output_size }),
                        entries@.len() == 4,
                        forall|t: int| 0 <= t < i ==> entries@[t] == v[t],
                        forall|t: int| i <= t < j ==> entries@[t] == v[t + 1],
                        forall|t: int| j <= t < len ==> entries@[t] == v[t],
                    decreases len - 1 - j,
                {
                    entries[j] = entries[j + 1];
                    j += 1;
                }
                entries[len - 1] = entry;
                let ghost nv = v.remove(i as int).push(entry);
                assert(entries@.subrange(0, len as int) =~= nv);
                assert(keys_distinct(nv));
                self.entries = entries;
                assert(self@.0 == nv);
                assert(nv == spec_insert(v, entry));
                return;
            }
            i += 1;
        }
        assert(!has_key(v, input_size));
        let mut entries = self.entries;
        if len < FLOW_MEASURE_CACHE_SIZE {
            entries[len] = entry;
            let ghost nv = v.push(entry);
            assert(entries@.subrange(0, len as int + 1) =~= nv);
            assert(keys_distinct(nv));
            *self = FlowMeasureCache { entries, len: self.len + 1, last_output: output_size };
            assert(self@.0 == nv);
            assert(nv == spec_insert(v, entry));
        } else {
            let mut j: usize = 0;
            while j < FLOW_MEASURE_CACHE_SIZE - 1
                invariant
                    0 <= j <= 3,
                    len == 4,
                    entries@.len() == 4,
                    forall|t: int| 0 <= t < j ==> entries@[t] == v[t + 1],
                    forall|t: int| j <= t < 4 ==> entries@[t] == v[t],
                decreases 3 - j,
            {
                entries[j] = entries[j + 1];
                j += 1;
            }
            entries[FLOW_MEASURE_CACHE_SIZE - 1] = entry;
            let ghost nv = v.drop_first().push(entry);
            assert(entries@.subrange(0, 4) =~= nv);
            assert(keys_distinct(nv));
            self.entries = entries;
            assert(self@.0 == nv);
            assert(nv == spec_insert(v, entry));
        }
    }

    /// Removes all entries.
    pub fn clear(&mut self)
        ensures
            final(self)@.0 == Seq::<FlowSlot>::empty(),
            final(self)@.1 == (Vec2 { x: 0u16, y: 0u16 }),
    {
        self.len = 0;
        assert(self.entries@.subrange(0, 0) =~= Seq::<FlowSlot>::empty());
    }

    /// Returns the output size of the most recently inserted entry, or zero when empty.
    pub fn get_last_output(&self) -> (r: Vec2<u16>)
        ensures
            r == self@.1,
    {
        if self.len == 0 {
            Vec2 { x: 0, y: 0 }
        } else {
            self.last_output
        }
    }

    /// Returns the output of the most recent entry whose input size on `axis` is `main`.
    pub fn latest_by_main(&self, axis: Axis2D, main: u16) -> (r: Option<Vec2<u16>>)
        ensures
            r == latest_with_main(self@.0, axis, main, self@.0.len() as int),
    {
        proof {
            use_type_invariant(self);
        }
        let len = self.len as usize;
        let mut i: usize = len;
        while i > 0
            invariant
                0 <= i <= len,
                len == self@.0.len(),
                len <= 4,
                self.len as int == len as int,
                latest_with_main(self@.0, axis, main, len as int) == latest_with_main(
                    self@.0,
                    axis,
                    main,
                    i as int,
                ),
            decreases i,
        {
            let e = self.entries[i - 1];
            assert(e == self.entries@[i - 1]);
            assert(self@.0 == self.entries@.subrange(0, self.len as int));
            assert(e == self@.0[i - 1]);
            if e.input_size.get(axis) == main {
                return Some(e.output_size);
            }
            i -= 1;
        }
        None
    }
}

/// The output of the latest of the first `k` entries whose input on `axis` is `main`.
pub open spec fn latest_with_main(v: Seq<FlowSlot>, axis: Axis2D, main: u16, k: int) -> Option<
    Vec2<u16>,
>
    decreases k,
{
    if k <= 0 {
        None
    } else if v[k - 1].input_size.at(axis) == main {
        Some(v[k - 1].output_size)
    } else {
        latest_with_main(v, axis, main, k - 1)
    }
}

/// Read after write: right after `insert(k, o)` the cache answers `o` for `k`; it never holds
/// more than four entries, nor two entries for one input.
pub proof fn lemma_insert_then_lookup(v: Seq<FlowSlot>, k: Vec2<u16>, o: Vec2<u16>)
    requires
        v.len() <= 4,
        keys_distinct(v),
    ensures
        lookup(spec_insert(v, FlowSlot { input_size: k, output_size: o }), k) == Some(o),
        spec_insert(v, FlowSlot { input_size: k, output_size: o }).len() <= 4,
        keys_distinct(spec_insert(v, FlowSlot { input_size: k, output_size: o })),
        spec_insert(v, FlowSlot { input_size: k, output_size: o }).last() == (FlowSlot {
            input_size: k,
            output_size: o,
        }),
{
    let e = FlowSlot { input_size: k, output_size: o };
    let w = spec_insert(v, e);
    if has_key(v, k) {
        let i = key_index(v, k);
        let r = v.remove(i);
        assert forall|j: int| 0 <= j < r.len() implies #[trigger] r[j].input_size != k by {
            if j < i {
                assert(r[j] == v[j]);
            } else {
                assert(r[j] == v[j + 1]);
            }
        }
    } else if v.len() < 4 {
    } else {
    }
    assert(w[w.len() - 1].input_size == k);
    assert(has_key(w, k));
    assert(key_index(w, k) == w.len() - 1);
}

/// A hit makes the entry the most recent without changing what the cache holds.
pub proof fn lemma_promote_keeps_entries(v: Seq<FlowSlot>, k: Vec2<u16>)
    requires
        keys_distinct(v),
    ensures
        spec_promote(v, k).len() == v.len(),
        forall|e: FlowSlot| v.contains(e) <==> #[trigger] spec_promote(v, k).contains(e),
        has_key(v, k) ==> spec_promote(v, k).last().input_size == k,
{
    if has_key(v, k) {
        let i = key_index(v, k);
        let w = spec_promote(v, k);
        assert forall|e: FlowSlot| v.contains(e) <==> #[trigger] w.contains(e) by {
            if v.contains(e) {
                let j = choose|j: int| 0 <= j < v.len() && v[j] == e;
                if j < i {
                    assert(w[j] == e);
                } else if j == i {
                    assert(w[w.len() - 1] == e);
                } else {
                    assert(w[j - 1] == e);
                }
            }
            if w.contains(e) {
                let j = choose|j: int| 0 <= j < w.len() && w[j] == e;
                if j < i {
                    assert(v[j] == e);
                } else if j == w.len() - 1 {
                    assert(v[i] == e);
                } else {
                    assert(v[j + 1] == e);
                }
            }
        }
    }
}

/// An explicit size override as stored: the maximum value means "unset", like every other
/// `None`.
pub open spec fn normalized(value: Option<u16>) -> Option<u16> {
    match value {
        Some(v) => if v == u16::MAX {
            None
        } else {
            Some(v)
        },
        None => None,
    }
}

/// `a + b`, saturating at the maximum.
pub open spec fn sat_add(a: u16, b: u16) -> u16 {
    if a + b > u16::MAX {
        u16::MAX
    } else {
        (a + b) as u16
    }
}

/// `a - b`, saturating at zero.
pub open spec fn sat_sub(a: u16, b: u16) -> u16 {
    if a < b {
        0
    } else {
        (a - b) as u16
    }
}

fn opt_eq(a: Option<u16>, b: Option<u16>) -> (r: bool)
    ensures
        r == (a == b),
{
    match (a, b) {
        (Some(x), Some(y)) => x == y,
        (None, None) => true,
        _ => false,
    }
}

/// Outcome of starting a flow pass on a widget's layout.
#[derive(Clone, Copy, Debug, PartialEq, Eq, Structural)]
pub enum FlowStart {
    /// The cache answered: the outer output size, margin included.
    Cached(Vec2<u16>),
    /// The widget must flow its content into this content size.
    Run(Vec2<u16>),
}

/// Layout state owned by every widget.
pub struct Layout {
    /// The widget id.
    pub id: u64,
    /// Outer rect in window coordinates.
    pub rect: Rect,
    /// The spacing around each edge.
    pub margin: Spacing,
    /// The flex weight for this widget.
    pub flex: u8,
    /// The per-axis alignment override.
    pub align: AlignOverride,
    /// Explicit per-axis minimum size, or `None` for the intrinsic minimum.
    pub explicit_min: Vec2<Option<u16>>,
    /// Explicit per-axis maximum size, or `None` for unbounded.
    pub explicit_max: Vec2<Option<u16>>,
    /// Explicit per-axis preferred size, or `None` for the intrinsic preferred size.
    pub explicit_pref: Vec2<Option<u16>>,
    /// Dirty, overflow and cache-validity flags.
    pub flags: LayoutFlags,
    /// The cached min, max, and preferred sizes.
    pub constraints: Constraints,
    /// The last layout-pass flow: the content size offered and the content size reported.
    pub flow_layout: FlowSlot,
    /// The recent measure-pass flows.
    pub flow_measure: FlowMeasureCache,
}

impl Layout {
    /// The widget id.
    pub open spec fn spec_id(self) -> u64 {
        self.id
    }

    /// The raw flag bits.
    pub open spec fn spec_flags(self) -> u8 {
        self.flags.0
    }

    /// The pending change.
    pub open spec fn dirty(self) -> DirtyImpact {
        if self.spec_flags() & 2 != 0 {
            DirtyImpact::Layout
        } else if self.spec_flags() & 1 != 0 {
            DirtyImpact::Paint
        } else {
            DirtyImpact::Clean
        }
    }

    /// Whether the widget overflowed during layout.
    pub open spec fn overflowing(self) -> bool {
        self.spec_flags() & 4 != 0
    }

    /// Whether the cached layout-pass flow is valid.
    pub open spec fn flow_valid(self) -> bool {
        self.spec_flags() & 8 != 0
    }

    /// Everything but the flags, the flow caches and the rect is the same in `self` and `o`.
    pub open spec fn same_settings(self, o: Layout) -> bool {
        &&& self.spec_id() == o.spec_id()
        &&& self.margin == o.margin
        &&& self.flex == o.flex
        &&& self.align == o.align
        &&& self.explicit_min == o.explicit_min
        &&& self.explicit_max == o.explicit_max
        &&& self.explicit_pref == o.explicit_pref
        &&& self.constraints == o.constraints
    }

    /// Creates a layout for the widget with id `id`, pending a first layout.
    pub fn new(id: u64) -> (r: Layout)
        ensures
            r.spec_id() == id,
            r.rect == (Rect { pos: Vec2 { x: 0i32, y: 0i32 }, size: Vec2 { x: 0u16, y: 0u16 } }),
            r.margin.edges(0, 0, 0, 0),
            r.flex == 0,
            r.align.0 == 0,
            r.explicit_min == (Vec2 { x: None::<u16>, y: None::<u16> }),
            r.explicit_max == (Vec2 { x: None::<u16>, y: None::<u16> }),
            r.explicit_pref == (Vec2 { x: None::<u16>, y: None::<u16> }),
            r.dirty() == DirtyImpact::Layout,
            !r.overflowing(),
            !r.flow_valid(),
            r.constraints == (Constraints {
                min_size: Vec2 { x: 0u16, y: 0u16 },
                max_size: Vec2 { x: u16::MAX, y: u16::MAX },
                preferred_size: Vec2 { x: 0u16, y: 0u16 },
            }),
            r.flow_layout == (FlowSlot {
                input_size: Vec2 { x: 0u16, y: 0u16 },
                output_size: Vec2 { x: 0u16, y: 0u16 },
            }),
            r.flow_measure@.0 == Seq::<FlowSlot>::empty(),
            r.flow_measure@.1 == (Vec2 { x: 0u16, y: 0u16 }),
    {
        assert((2u8 & 2u8) != 0u8 && (2u8 & 4u8) == 0u8 && (2u8 & 8u8) == 0u8) by (bit_vector);
        Layout {
            id,
            rect: Rect { pos: Vec2 { x: 0, y: 0 }, size: Vec2 { x: 0, y: 0 } },
            margin: Spacing::new(),
            flex: 0,
            align: AlignOverride::new(),
            explicit_min: Vec2 { x: None, y: None },
            explicit_max: Vec2 { x: None, y: None },
            explicit_pref: Vec2 { x: None, y: None },
            flags: LayoutFlags(LayoutFlags::DIRTY_LAYOUT),
            constraints: Constraints {
                min_size: Vec2 { x: 0, y: 0 },
                max_size: Vec2 { x: u16::MAX, y: u16::MAX },
                preferred_size: Vec2 { x: 0, y: 0 },
            },
            flow_layout: FlowSlot {
                input_size: Vec2 { x: 0, y: 0 },
                output_size: Vec2 { x: 0, y: 0 },
            },
            flow_measure: FlowMeasureCache::new(),
        }
    }

    /// The content size left of `size` once the margin is taken off each axis.
    pub open spec fn content_alloc(self, size: Vec2<u16>) -> Vec2<u16> {
        Vec2 {
            x: sat_sub(size.x, self.margin.total(Axis2D::X)),
            y: sat_sub(size.y, self.margin.total(Axis2D::Y)),
        }
    }

    /// The outer size of a content size: the margin added on each axis.
    pub open spec fn outer(self, content: Vec2<u16>) -> Vec2<u16> {
        Vec2 {
            x: sat_add(content.x, self.margin.total(Axis2D::X)),
            y: sat_add(content.y, self.margin.total(Axis2D::Y)),
        }
    }

    /// A reported content size raised to the explicit minimum and then lowered to the
    /// explicit maximum, on each axis.
    pub open spec fn clamped_output(self, out: Vec2<u16>) -> Vec2<u16> {
        Vec2 {
            x: clamp_to_explicit(out.x, self.explicit_min.x, self.explicit_max.x),
            y: clamp_to_explicit(out.y, self.explicit_min.y, self.explicit_max.y),
        }
    }

    /// What starting a layout-pass flow with `size` answers.
    pub open spec fn flow_begin_result(self, size: Vec2<u16>) -> FlowStart {
        let a = self.content_alloc(size);
        if self.flow_valid() && a == self.flow_layout.input_size {
            FlowStart::Cached(self.outer(self.flow_layout.output_size))
        } else {
            FlowStart::Run(a)
        }
    }

    /// `new` is `old` after starting a layout-pass flow with `size`: the rect takes the
    /// content size, and on a miss the cache records the new input and turns invalid.
    pub open spec fn flow_began(old: Layout, new: Layout, size: Vec2<u16>) -> bool {
        let a = old.content_alloc(size);
        &&& new.same_settings(old)
        &&& new.rect == (Rect { pos: old.rect.pos, size: a })
        &&& new.dirty() == old.dirty()
        &&& new.overflowing() == old.overflowing()
        &&& new.flow_measure@ == old.flow_measure@
        &&& if old.flow_begin_result(size) is Cached {
            new.flow_layout == old.flow_layout && new.flow_valid() == old.flow_valid()
        } else {
            new.flow_layout == (FlowSlot { input_size: a, output_size: old.flow_layout.output_size })
                && !new.flow_valid()
        }
    }

    /// `new` is `old` after finishing a layout-pass flow in which the content reported `out`:
    /// the clamped output is cached as valid and the widget is clean.
    pub open spec fn flow_finished(old: Layout, new: Layout, out: Vec2<u16>) -> bool {
        &&& new.same_settings(old)
        &&& new.rect == old.rect
        &&& new.flow_layout == (FlowSlot {
            input_size: old.flow_layout.input_size,
            output_size: old.clamped_output(out),
        })
        &&& new.flow_valid()
        &&& new.dirty() == DirtyImpact::Clean
        &&& new.overflowing() == old.overflowing()
        &&& new.flow_measure@ == old.flow_measure@
    }

    /// Returns the widget id.
    pub fn get_id(&self) -> (r: u64)
        ensures
            r == self.spec_id(),
    {
        self.id
    }

    /// Returns the current [`DirtyImpact`].
    pub fn get_dirty(&self) -> (r: DirtyImpact)
        ensures
            r == self.dirty(),
    {
        if self.flags.get(LayoutFlags::DIRTY_LAYOUT) {
            DirtyImpact::Layout
        } else if self.flags.get(LayoutFlags::DIRTY_PAINT) {
            DirtyImpact::Paint
        } else {
            DirtyImpact::Clean
        }
    }

    fn invalidate_flow_caches(&mut self)
        ensures
            final(self).same_settings(*old(self)),
            final(self).rect == old(self).rect,
            final(self).flow_layout == old(self).flow_layout,
            final(self).flow_measure@.0 == Seq::<FlowSlot>::empty(),
            !final(self).flow_valid(),
            final(self).dirty() == old(self).dirty(),
            final(self).overflowing() == old(self).overflowing(),
    {
        let f = self.flags.0;
        self.flags.set(LayoutFlags::FLOW_LAYOUT_VALID, false);
        assert((f & !8u8) & 8u8 == 0u8 && ((f & !8u8) & 1u8) == (f & 1u8)
            && ((f & !8u8) & 2u8) == (f & 2u8) && ((f & !8u8) & 4u8) == (f & 4u8)) by (bit_vector);
        self.flow_measure.clear();
    }

    /// Sets the dirty state to `impact`; a pending layout drops the flow caches.
    pub fn set_dirty(&mut self, impact: DirtyImpact)
        ensures
            final(self).dirty() == impact,
            final(self).same_settings(*old(self)),
            final(self).rect == old(self).rect,
            final(self).flow_layout == old(self).flow_layout,
            final(self).overflowing() == old(self).overflowing(),
            impact == DirtyImpact::Layout ==> !final(self).flow_valid() && final(self).flow_measure@.0
                == Seq::<FlowSlot>::empty(),
            impact != DirtyImpact::Layout ==> final(self).flow_valid() == old(self).flow_valid()
                && final(self).flow_measure@ == old(self).flow_measure@,
    {
        let f = self.flags.0;
        let p = impact == DirtyImpact::Paint;
        let l = impact == DirtyImpact::Layout;
        self.flags.set(LayoutFlags::DIRTY_PAINT, p);
        self.flags.set(LayoutFlags::DIRTY_LAYOUT, l);
        let g = self.flags.0;
        assert(g & 2u8 != 0u8 <==> l) by (bit_vector)
            requires
                g == (if l { (if p { f | 1u8 } else { f & !1u8 }) | 2u8 } else { (if p { f | 1u8 } else { f & !1u8 }) & !2u8 }),
        ;
        assert(g & 1u8 != 0u8 <==> p) by (bit_vector)
            requires
                g == (if l { (if p { f | 1u8 } else { f & !1u8 }) | 2u8 } else { (if p { f | 1u8 } else { f & !1u8 }) & !2u8 }),
        ;
        assert(g & 4u8 == f & 4u8 && g & 8u8 == f & 8u8) by (bit_vector)
            requires
                g == (if l { (if p { f | 1u8 } else { f & !1u8 }) | 2u8 } else { (if p { f | 1u8 } else { f & !1u8 }) & !2u8 }),
        ;
        if l {
            self.invalidate_flow_caches();
        }
    }

    /// Raises the dirty state to at least `impact`; a pending layout drops the flow caches.
    pub fn or_dirty(&mut self, impact: DirtyImpact)
        ensures
            final(self).dirty() == old(self).dirty().spec_max(impact),
            final(self).same_settings(*old(self)),
            final(self).rect == old(self).rect,
            final(self).flow_layout == old(self).flow_layout,
            final(self).overflowing() == old(self).overflowing(),
            impact == DirtyImpact::Layout ==> !final(self).flow_valid() && final(self).flow_measure@.0
                == Seq::<FlowSlot>::empty(),
            impact != DirtyImpact::Layout ==> final(self).flow_valid() == old(self).flow_valid()
                && final(self).flow_measure@ == old(self).flow_measure@,
    {
        let f = self.flags.0;
        match impact {
            DirtyImpact::Clean => {},
            DirtyImpact::Paint => {
                self.flags.set(LayoutFlags::DIRTY_PAINT, true);
                assert((f | 1u8) & 1u8 != 0u8 && (f | 1u8) & 2u8 == f & 2u8 && (f | 1u8) & 4u8 == f
                    & 4u8 && (f | 1u8) & 8u8 == f & 8u8) by (bit_vector);
            },
            DirtyImpact::Layout => {
                self.flags.set(LayoutFlags::DIRTY_LAYOUT, true);
                assert((f | 2u8) & 2u8 != 0u8 && (f | 2u8) & 1u8 == f & 1u8 && (f | 2u8) & 4u8 == f
                    & 4u8) by (bit_vector);
                self.invalidate_flow_caches();
            },
        }
    }

    /// Returns true when the widget overflowed its allocated size.
    pub fn is_overflowing(&self) -> (r: bool)
        ensures
            r == self.overflowing(),
    {
        self.flags.get(LayoutFlags::OVERFLOWS)
    }

    /// Sets whether the widget overflowed during layout.
    pub fn set_overflowing(&mut self, value: bool)
        ensures
            final(self).overflowing() == value,
            final(self).dirty() == old(self).dirty(),
            final(self).flow_valid() == old(self).flow_valid(),
            final(self).same_settings(*old(self)),
            final(self).rect == old(self).rect,
            final(self).flow_layout == old(self).flow_layout,
            final(self).flow_measure@ == old(self).flow_measure@,
    {
        let f = self.flags.0;
        self.flags.set(LayoutFlags::OVERFLOWS, value);
        let g = self.flags.0;
        assert((g & 4u8 != 0u8) == value && g & 1u8 == f & 1u8 && g & 2u8 == f & 2u8 && g & 8u8 == f
            & 8u8) by (bit_vector)
            requires
                g == (if value { f | 4u8 } else { f & !4u8 }),
        ;
    }
}

/// `v` raised to `min` and then lowered to `max`, where each bound is set.
pub open spec fn clamp_to_explicit(v: u16, min: Option<u16>, max: Option<u16>) -> u16 {
    let v1 = match min {
        Some(m) => if v < m {
            m
        } else {
            v
        },
        None => v,
    };
    match max {
        Some(m) => if v1 > m {
            m
        } else {
            v1
        },
        None => v1,
    }
}

fn clamp_axis_to_explicit(v: u16, min: Option<u16>, max: Option<u16>) -> (r: u16)
    ensures
        r == clamp_to_explicit(v, min, max),
{
    let mut v = v;
    if let Some(m) = min {
        if v < m {
            v = m;
        }
    }
    if let Some(m) = max {
        if v > m {
            v = m;
        }
    }
    v
}

/// One axis of the constraints a widget reports, given what it measured, its explicit
/// overrides and its margin: the explicit minimum raises the minimum, the explicit maximum
/// and preference replace theirs, the minimum is lowered to the maximum, the preference is
/// clamped between them, and the margin is added to all three.
pub open spec fn constrain_axis(
    min: u16,
    max: u16,
    pref: u16,
    emin: Option<u16>,
    emax: Option<u16>,
    epref: Option<u16>,
    margin: u16,
) -> (u16, u16, u16) {
    let min1 = match emin {
        Some(v) => if min < v {
            v
        } else {
            min
        },
        None => min,
    };
    let max1 = match emax {
        Some(v) => v,
        None => max,
    };
    let pref1 = match epref {
        Some(v) => v,
        None => pref,
    };
    let min2 = if min1 < max1 {
        min1
    } else {
        max1
    };
    let pref2 = if pref1 < min2 {
        min2
    } else if pref1 > max1 {
        max1
    } else {
        pref1
    };
    (sat_add(min2, margin), sat_add(max1, margin), sat_add(pref2, margin))
}

fn constrain_axis_exec(
    min: u16,
    max: u16,
    pref: u16,
    emin: Option<u16>,
    emax: Option<u16>,
    epref: Option<u16>,
    margin: u16,
) -> (r: (u16, u16, u16))
    ensures
        r == constrain_axis(min, max, pref, emin, emax, epref, margin),
        r.0 <= r.2 <= r.1,
{
    let mut min = min;
    let mut max = max;
    let mut pref = pref;
    if let Some(v) = emin {
        if min < v {
            min = v;
        }
    }
    if let Some(v) = emax {
        max = v;
    }
    if let Some(v) = epref {
        pref = v;
    }
    if max < min {
        min = max;
    }
    if pref < min {
        pref = min;
    } else if pref > max {
        pref = max;
    }
    (min.saturating_add(margin), max.saturating_add(margin), pref.saturating_add(margin))
}

/// The constraints a widget reports for what it measured, on both axes.
pub open spec fn constrained(l: Layout, c: Constraints) -> Constraints {
    let x = constrain_axis(
        c.min_size.x,
        c.max_size.x,
        c.preferred_size.x,
        l.explicit_min.x,
        l.explicit_max.x,
        l.explicit_pref.x,
        l.margin.total(Axis2D::X),
    );
    let y = constrain_axis(
        c.min_size.y,
        c.max_size.y,
        c.preferred_size.y,
        l.explicit_min.y,
        l.explicit_max.y,
        l.explicit_pref.y,
        l.margin.total(Axis2D::Y),
    );
    Constraints {
        min_size: Vec2 { x: x.0, y: y.0 },
        max_size: Vec2 { x: x.1, y: y.1 },
        preferred_size: Vec2 { x: x.2, y: y.2 },
    }
}

/// Whether minimum, preferred and maximum size are ordered on both axes.
pub open spec fn ordered(c: Constraints) -> bool {
    &&& c.min_size.x <= c.preferred_size.x <= c.max_size.x
    &&& c.min_size.y <= c.preferred_size.y <= c.max_size.y
}

impl Layout {
    /// Returns the explicit minimum on `axis`, or `None` when unset.
    pub fn get_explicit_min(&self, axis: Axis2D) -> (r: Option<u16>)
        ensures
            r == self.explicit_min.at(axis),
    {
        self.explicit_min.get(axis)
    }

    /// Returns the explicit maximum on `axis`, or `None` when unset.
    pub fn get_explicit_max(&self, axis: Axis2D) -> (r: Option<u16>)
        ensures
            r == self.explicit_max.at(axis),
    {
        self.explicit_max.get(axis)
    }

    /// Returns the explicit preferred size on `axis`, or `None` when unset.
    pub fn get_explicit_pref(&self, axis: Axis2D) -> (r: Option<u16>)
        ensures
            r == self.explicit_pref.at(axis),
    {
        self.explicit_pref.get(axis)
    }

    fn normalize(value: Option<u16>) -> (r: Option<u16>)
        ensures
            r == normalized(value),
    {
        match value {
            Some(v) => if v == u16::MAX {
                None
            } else {
                Some(v)
            },
            None => None,
        }
    }

    /// Sets the explicit minimum on `axis` (the maximum value counts as unset); a change
    /// marks the layout dirty.
    pub fn set_explicit_min(&mut self, axis: Axis2D, value: Option<u16>)
        ensures
            final(self).explicit_min == old(self).explicit_min.with(axis, normalized(value)),
            final(self).explicit_max == old(self).explicit_max,
            final(self).explicit_pref == old(self).explicit_pref,
            final(self).margin == old(self).margin,
            final(self).dirty() == if old(self).explicit_min.at(axis) == normalized(value) {
                old(self).dirty()
            } else {
                DirtyImpact::Layout
            },
    {
        let value = Self::normalize(value);
        if !opt_eq(self.explicit_min.get(axis), value) {
            self.explicit_min.set(axis, value);
            self.or_dirty(DirtyImpact::Layout);
        } else {
            assert(self.explicit_min == old(self).explicit_min.with(axis, value));
        }
    }

    /// Sets the explicit maximum on `axis` (the maximum value counts as unset); a change
    /// marks the layout dirty.
    pub fn set_explicit_max(&mut self, axis: Axis2D, value: Option<u16>)
        ensures
            final(self).explicit_max == old(self).explicit_max.with(axis, normalized(value)),
            final(self).explicit_min == old(self).explicit_min,
            final(self).explicit_pref == old(self).explicit_pref,
            final(self).margin == old(self).margin,
            final(self).dirty() == if old(self).explicit_max.at(axis) == normalized(value) {
                old(self).dirty()
            } else {
                DirtyImpact::Layout
            },
    {
        let value = Self::normalize(value);
        if !opt_eq(self.explicit_max.get(axis), value) {
            self.explicit_max.set(axis, value);
            self.or_dirty(DirtyImpact::Layout);
        } else {
            assert(self.explicit_max == old(self).explicit_max.with(axis, value));
        }
    }

    /// Sets the explicit preferred size on `axis` (the maximum value counts as unset); a
    /// change marks the layout dirty.
    pub fn set_explicit_pref(&mut self, axis: Axis2D, value: Option<u16>)
        ensures
            final(self).explicit_pref == old(self).explicit_pref.with(axis, normalized(value)),
            final(self).explicit_min == old(self).explicit_min,
            final(self).explicit_max == old(self).explicit_max,
            final(self).margin == old(self).margin,
            final(self).dirty() == if old(self).explicit_pref.at(axis) == normalized(value) {
                old(self).dirty()
            } else {
                DirtyImpact::Layout
            },
    {
        let value = Self::normalize(value);
        if !opt_eq(self.explicit_pref.get(axis), value) {
            self.explicit_pref.set(axis, value);
            self.or_dirty(DirtyImpact::Layout);
        } else {
            assert(self.explicit_pref == old(self).explicit_pref.with(axis, value));
        }
    }

    /// Pins the size on `axis`: sets the explicit minimum, maximum and preference to `value`.
    pub fn set_size(&mut self, axis: Axis2D, value: Option<u16>)
        ensures
            final(self).explicit_min == old(self).explicit_min.with(axis, normalized(value)),
            final(self).explicit_max == old(self).explicit_max.with(axis, normalized(value)),
            final(self).explicit_pref == old(self).explicit_pref.with(axis, normalized(value)),
            final(self).margin == old(self).margin,
    {
        self.set_explicit_min(axis, value);
        self.set_explicit_max(axis, value);
        self.set_explicit_pref(axis, value);
    }

    /// Returns the size on `axis` if pinned: the explicit minimum when it equals the explicit
    /// maximum, otherwise `None`.
    pub fn get_size(&self, axis: Axis2D) -> (r: Option<u16>)
        ensures
            r == if self.explicit_min.at(axis) == self.explicit_max.at(axis) {
                self.explicit_min.at(axis)
            } else {
                None
            },
    {
        let min = self.explicit_min.get(axis);
        let max = self.explicit_max.get(axis);
        if opt_eq(min, max) {
            min
        } else {
            None
        }
    }

    /// Sets the flex weight; a change marks the layout dirty.
    pub fn set_flex(&mut self, flex: u8)
        ensures
            final(self).flex == flex,
            final(self).dirty() == if old(self).flex == flex {
                old(self).dirty()
            } else {
                DirtyImpact::Layout
            },
            final(self).margin == old(self).margin,
            final(self).align == old(self).align,
    {
        if self.flex == flex {
            return;
        }
        self.flex = flex;
        self.or_dirty(DirtyImpact::Layout);
    }

    /// Sets the alignment override on `axis`; a change marks the layout dirty.
    pub fn set_align(&mut self, axis: Axis2D, a: FlexAlign)
        ensures
            final(self).align.spec_mode(axis) == Some(a),
            final(self).align.spec_mode(axis.spec_flip()) == old(self).align.spec_mode(
                axis.spec_flip(),
            ),
            final(self).margin == old(self).margin,
            final(self).flex == old(self).flex,
            old(self).align.spec_mode(axis) != Some(a) ==> final(self).dirty()
                == DirtyImpact::Layout,
    {
        let new_align = self.align.mode(axis, Some(a));
        if self.align == new_align {
            return;
        }
        self.align = new_align;
        self.or_dirty(DirtyImpact::Layout);
    }

    /// Sets the margin and marks the layout dirty.
    pub fn set_margin(&mut self, margin: Spacing)
        ensures
            final(self).margin == margin,
            final(self).dirty() == DirtyImpact::Layout,
            final(self).flex == old(self).flex,
            final(self).align == old(self).align,
    {
        self.margin = margin;
        self.or_dirty(DirtyImpact::Layout);
    }

    /// Returns the leading margin on each axis.
    pub fn get_margin_before(&self) -> (r: Vec2<u16>)
        ensures
            r.x == self.margin.before(Axis2D::X),
            r.y == self.margin.before(Axis2D::Y),
    {
        Vec2 {
            x: self.margin.get_before(Axis2D::X) as u16,
            y: self.margin.get_before(Axis2D::Y) as u16,
        }
    }

    /// Returns the trailing margin on each axis.
    pub fn get_margin_after(&self) -> (r: Vec2<u16>)
        ensures
            r.x == self.margin.after(Axis2D::X),
            r.y == self.margin.after(Axis2D::Y),
    {
        Vec2 {
            x: self.margin.get_after(Axis2D::X) as u16,
            y: self.margin.get_after(Axis2D::Y) as u16,
        }
    }

    /// Returns the total margin on each axis.
    pub fn get_margin_total(&self) -> (r: Vec2<u16>)
        ensures
            r.x == self.margin.total(Axis2D::X),
            r.y == self.margin.total(Axis2D::Y),
    {
        self.margin.get_total()
    }

    /// Returns the content size plus total margin on each axis.
    pub fn get_outer_size(&self) -> (r: Vec2<u16>)
        ensures
            r == self.outer(self.rect.size),
    {
        let m = self.margin.get_total();
        Vec2 { x: self.rect.size.x.saturating_add(m.x), y: self.rect.size.y.saturating_add(m.y) }
    }

    /// Places a child's cursor, reported at `cursor_pos` relative to the child at `child_pos`,
    /// into this widget's content area; `None` when it lies more than one cell outside.
    pub fn place_child_cursor(&self, child_pos: Vec2<i32>, cursor_pos: Vec2<i32>) -> (r: Option<
        Vec2<i32>,
    >)
        requires
            i32::MIN <= cursor_pos.x + child_pos.x <= i32::MAX,
            i32::MIN <= cursor_pos.y + child_pos.y <= i32::MAX,
            i32::MIN <= cursor_pos.x + child_pos.x - self.rect.pos.x <= i32::MAX,
            i32::MIN <= cursor_pos.y + child_pos.y - self.rect.pos.y <= i32::MAX,
        ensures
            ({
                let px = cursor_pos.x + child_pos.x - self.rect.pos.x;
                let py = cursor_pos.y + child_pos.y - self.rect.pos.y;
                let reject = px < -1 || px > self.rect.size.x || py < -1 || py > self.rect.size.y;
                r == if reject {
                    None
                } else {
                    Some(Vec2 { x: px as i32, y: py as i32 })
                }
            }),
    {
        let pos = Vec2 {
            x: cursor_pos.x + child_pos.x - self.rect.pos.x,
            y: cursor_pos.y + child_pos.y - self.rect.pos.y,
        };
        let size = Vec2 { x: self.rect.size.x as i32, y: self.rect.size.y as i32 };
        let reject_x = pos.x < -1 || pos.x > size.x;
        let reject_y = pos.y < -1 || pos.y > size.y;
        if reject_x || reject_y {
            return None;
        }
        Some(pos)
    }

    /// Records the constraints a widget reports for what it `measured`.
    pub fn apply_constraints(&mut self, measured: Constraints)
        ensures
            final(self).constraints == constrained(*old(self), measured),
            ordered(final(self).constraints),
            final(self).margin == old(self).margin,
            final(self).explicit_min == old(self).explicit_min,
            final(self).explicit_max == old(self).explicit_max,
            final(self).explicit_pref == old(self).explicit_pref,
            final(self).dirty() == old(self).dirty(),
            final(self).flow_layout == old(self).flow_layout,
            final(self).flow_valid() == old(self).flow_valid(),
            final(self).flow_measure@ == old(self).flow_measure@,
    {
        let m = self.margin.get_total();
        let x = constrain_axis_exec(
            measured.min_size.x,
            measured.max_size.x,
            measured.preferred_size.x,
            self.explicit_min.x,
            self.explicit_max.x,
            self.explicit_pref.x,
            m.x,
        );
        let y = constrain_axis_exec(
            measured.min_size.y,
            measured.max_size.y,
            measured.preferred_size.y,
            self.explicit_min.y,
            self.explicit_max.y,
            self.explicit_pref.y,
            m.y,
        );
        self.constraints = Constraints {
            min_size: Vec2 { x: x.0, y: y.0 },
            max_size: Vec2 { x: x.1, y: y.1 },
            preferred_size: Vec2 { x: x.2, y: y.2 },
        };
    }

    /// Starts a layout-pass flow offering `size` (margin included): answers from the cache
    /// when the content size is the one last flowed and the cache is valid, otherwise asks for
    /// a flow of the content size.
    pub fn begin_flow(&mut self, size: Vec2<u16>) -> (r: FlowStart)
        ensures
            r == old(self).flow_begin_result(size),
            Layout::flow_began(*old(self), *final(self), size),
    {
        let m = self.margin.get_total();
        let content_alloc = Vec2 { x: size.x.saturating_sub(m.x), y: size.y.saturating_sub(m.y) };
        let hit = self.flags.get(LayoutFlags::FLOW_LAYOUT_VALID) && content_alloc
            == self.flow_layout.input_size;
        if hit {
            let out = self.flow_layout.output_size;
            self.rect.size = content_alloc;
            return FlowStart::Cached(
                Vec2 { x: out.x.saturating_add(m.x), y: out.y.saturating_add(m.y) },
            );
        }
        self.rect.size = content_alloc;
        self.flow_layout.input_size = content_alloc;
        let f = self.flags.0;
        self.flags.set(LayoutFlags::FLOW_LAYOUT_VALID, false);
        assert((f & !8u8) & 8u8 == 0u8 && ((f & !8u8) & 1u8) == (f & 1u8) && ((f & !8u8) & 2u8) == (
        f & 2u8) && ((f & !8u8) & 4u8) == (f & 4u8)) by (bit_vector);
        FlowStart::Run(content_alloc)
    }

    /// Finishes a layout-pass flow in which the content reported `content_out`: clamps it to
    /// the explicit bounds, caches it as valid, marks the widget clean and returns the outer
    /// size.
    pub fn finish_flow(&mut self, content_out: Vec2<u16>) -> (r: Vec2<u16>)
        ensures
            r == old(self).outer(old(self).clamped_output(content_out)),
            Layout::flow_finished(*old(self), *final(self), content_out),
    {
        let out = Vec2 {
            x: clamp_axis_to_explicit(content_out.x, self.explicit_min.x, self.explicit_max.x),
            y: clamp_axis_to_explicit(content_out.y, self.explicit_min.y, self.explicit_max.y),
        };
        self.flow_layout.output_size = out;
        let f = self.flags.0;
        self.flags.set(LayoutFlags::FLOW_LAYOUT_VALID, true);
        assert((f | 8u8) & 8u8 != 0u8 && ((f | 8u8) & 4u8) == (f & 4u8)) by (bit_vector);
        self.set_dirty(DirtyImpact::Clean);
        let m = self.margin.get_total();
        Vec2 { x: out.x.saturating_add(m.x), y: out.y.saturating_add(m.y) }
    }

    /// Starts a measure-pass flow offering `size` (margin included): answers from the
    /// measure cache when it holds the content size, otherwise asks for a measure of it.
    pub fn begin_measure(&mut self, size: Vec2<u16>) -> (r: FlowStart)
        ensures
            r == match lookup(old(self).flow_measure@.0, old(self).content_alloc(size)) {
                Some(out) => FlowStart::Cached(old(self).outer(out)),
                None => FlowStart::Run(old(self).content_alloc(size)),
            },
            final(self).flow_measure@.0 == spec_promote(
                old(self).flow_measure@.0,
                old(self).content_alloc(size),
            ),
            final(self).flow_measure@.1 == old(self).flow_measure@.1,
            final(self).same_settings(*old(self)),
            final(self).rect == old(self).rect,
            final(self).flags == old(self).flags,
            final(self).flow_layout == old(self).flow_layout,
    {
        let m = self.margin.get_total();
        let content_alloc = Vec2 { x: size.x.saturating_sub(m.x), y: size.y.saturating_sub(m.y) };
        match self.flow_measure.find_and_promote(content_alloc) {
            Some(out) => FlowStart::Cached(
                Vec2 { x: out.x.saturating_add(m.x), y: out.y.saturating_add(m.y) },
            ),
            None => FlowStart::Run(content_alloc),
        }
    }

    /// Finishes a measure-pass flow of `content_alloc` in which the content reported
    /// `content_out`: clamps it to the explicit bounds, caches it and returns the outer size.
    pub fn finish_measure(&mut self, content_alloc: Vec2<u16>, content_out: Vec2<u16>) -> (r: Vec2<
        u16,
    >)
        ensures
            r == old(self).outer(old(self).clamped_output(content_out)),
            final(self).flow_measure@.0 == spec_insert(
                old(self).flow_measure@.0,
                FlowSlot {
                    input_size: content_alloc,
                    output_size: old(self).clamped_output(content_out),
                },
            ),
            final(self).flow_measure@.1 == old(self).clamped_output(content_out),
            final(self).same_settings(*old(self)),
            final(self).rect == old(self).rect,
            final(self).flags == old(self).flags,
            final(self).flow_layout == old(self).flow_layout,
    {
        let out = Vec2 {
            x: clamp_axis_to_explicit(content_out.x, self.explicit_min.x, self.explicit_max.x),
            y: clamp_axis_to_explicit(content_out.y, self.explicit_min.y, self.explicit_max.y),
        };
        self.flow_measure.insert(content_alloc, out);
        let m = self.margin.get_total();
        Vec2 { x: out.x.saturating_add(m.x), y: out.y.saturating_add(m.y) }
    }

    /// Returns the cached output for a flow whose offered size on `axis` was `main`: the
    /// layout-pass result when valid and matching, else the most recent matching measure.
    pub fn flow_lookup_by_main(&self, axis: Axis2D, main: u16) -> (r: Option<Vec2<u16>>)
        ensures
            r == if self.flow_valid() && self.flow_layout.input_size.at(axis) == main {
                Some(self.flow_layout.output_size)
            } else {
                latest_with_main(
                    self.flow_measure@.0,
                    axis,
                    main,
                    self.flow_measure@.0.len() as int,
                )
            },
    {
        if self.flags.get(LayoutFlags::FLOW_LAYOUT_VALID) && self.flow_layout.input_size.get(axis)
            == main {
            return Some(self.flow_layout.output_size);
        }
        self.flow_measure.latest_by_main(axis, main)
    }

    /// Returns the last layout output size including margin.
    pub fn get_flow_output_size_layout(&self) -> (r: Vec2<u16>)
        ensures
            r == self.outer(self.flow_layout.output_size),
    {
        let m = self.margin.get_total();
        let out = self.flow_layout.output_size;
        Vec2 { x: out.x.saturating_add(m.x), y: out.y.saturating_add(m.y) }
    }

    /// Returns the last measure output size including margin.
    pub fn get_flow_output_size_measure(&self) -> (r: Vec2<u16>)
        ensures
            r == self.outer(self.flow_measure@.1),
    {
        let m = self.margin.get_total();
        let out = self.flow_measure.get_last_output();
        Vec2 { x: out.x.saturating_add(m.x), y: out.y.saturating_add(m.y) }
    }
}

/// Reading back an explicit override gives what was set, normalized.
pub proof fn lemma_size_read_back(l: Layout, axis: Axis2D, v: Option<u16>)
    ensures
        l.explicit_min.with(axis, normalized(v)).at(axis) == normalized(v),
        l.explicit_min.with(axis, normalized(v)).at(axis.spec_flip()) == l.explicit_min.at(
            axis.spec_flip(),
        ),
{
}

/// The dirty state only rises under `or_dirty`: the result is the more severe of the old state
/// and the impact, so marking twice is the same as marking once with the more severe impact.
pub proof fn lemma_dirty_max_laws(a: DirtyImpact, b: DirtyImpact, c: DirtyImpact)
    ensures
        a.spec_max(b) == b.spec_max(a),
        a.spec_max(b).spec_max(c) == a.spec_max(b.spec_max(c)),
        a.spec_max(a) == a,
        a.spec_max(DirtyImpact::Clean) == a,
        a.spec_max(b).rank() >= a.rank(),
{
}

/// A flow that missed the cache and then finished is answered from the cache when the same
/// size is offered again, with the size the finished flow returned.
pub proof fn lemma_flow_cache_round_trip(
    l0: Layout,
    l1: Layout,
    l2: Layout,
    size: Vec2<u16>,
    out: Vec2<u16>,
)
    requires
        Layout::flow_began(l0, l1, size),
        Layout::flow_finished(l1, l2, out),
    ensures
        l2.flow_begin_result(size) == FlowStart::Cached(l1.outer(l1.clamped_output(out))),
{
}

/// A measure that missed the cache and then finished is answered from the cache when the
/// same size is offered again, with the size the finished measure returned.
pub proof fn lemma_measure_cache_round_trip(l: Layout, size: Vec2<u16>, out: Vec2<u16>)
    requires
        l.flow_measure@.0.len() <= 4,
        keys_distinct(l.flow_measure@.0),
    ensures
        ({
            let a = l.content_alloc(size);
            let v = spec_insert(
                l.flow_measure@.0,
                FlowSlot { input_size: a, output_size: l.clamped_output(out) },
            );
            lookup(v, a) == Some(l.clamped_output(out))
        }),
{
    lemma_insert_then_lookup(l.flow_measure@.0, l.content_alloc(size), l.clamped_output(out));
}

} // verus!
