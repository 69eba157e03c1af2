use vstd::prelude::*;

verus! {

/// Identifies a widget kind, and through it the draw operation that applies
/// to widgets of that kind.
#[derive(Clone, Copy, Debug, PartialEq, Eq, Hash, Structural)]
pub struct WidgetTag(pub u64);

impl WidgetTag {
    /// The tag of widget kind `kind`.
    pub fn new(kind: u64) -> (r: WidgetTag)
        ensures
            r == WidgetTag(kind),
    {
        WidgetTag(kind)
    }
}

/// Handle of a registered draw operation: its position in the registry.
#[derive(Clone, Copy, Debug, PartialEq, Eq, Hash, Structural)]
pub struct DrawSystemId(pub usize);

/// Why a registration was refused.
#[derive(Clone, Copy, Debug, PartialEq, Eq, Structural)]
pub enum RegisterError {
    /// The kind already has a draw operation; the first registration is kept.
    AlreadyRegistered(WidgetTag),
}

/// Maps each registered widget kind to its draw operation.
///
/// Registrations are kept in the order in which they were made, and no kind
/// is registered twice.
pub struct WidgetRegistry<Op> {
    entries: Vec<(WidgetTag, Op)>,
}

impl<Op> WidgetRegistry<Op> {
    /// The registered kinds, in order of registration.
    pub closed spec fn tags(&self) -> Seq<WidgetTag> {
        self.entries@.map_values(|e: (WidgetTag, Op)| e.0)
    }

    /// The registered draw operations, in order of registration.
    pub closed spec fn ops(&self) -> Seq<Op> {
        self.entries@.map_values(|e: (WidgetTag, Op)| e.1)
    }

    /// Each registered kind comes with exactly one operation, and no kind is
    /// registered twice.
    pub open spec fn wf(&self) -> bool {
        &&& self.tags().len() == self.ops().len()
        &&& self.tags().no_duplicates()
    }

    /// The draw operation registered for `tag`, if any.
    pub open spec fn lookup(&self, tag: WidgetTag) -> Option<DrawSystemId> {
        if self.tags().contains(tag) {
            Some(DrawSystemId(self.tags().index_of(tag) as usize))
        } else {
            None
        }
    }

    proof fn lemma_views(&self)
        ensures
            self.tags().len() == self.entries@.len(),
            self.ops().len() == self.entries@.len(),
            forall|i: int|
                0 <= i < self.entries@.len() ==> #[trigger] self.tags()[i] == self.entries@[i].0
                    && self.ops()[i] == self.entries@[i].1,
    {
    }

    /// An empty registry.
    pub fn new() -> (r: Self)
        ensures
            r.wf(),
            r.tags() == Seq::<WidgetTag>::empty(),
            r.ops() == Seq::<Op>::empty(),
    {
        let r = WidgetRegistry { entries: Vec::new() };
        proof {
            r.lemma_views();
            assert(r.tags() =~= Seq::<WidgetTag>::empty());
            assert(r.ops() =~= Seq::<Op>::empty());
        }
        r
    }

    /// Number of registered kinds.
    pub fn len(&self) -> (r: usize)
        ensures
            r == self.tags().len(),
    {
        proof {
            self.lemma_views();
        }
        self.entries.len()
    }

    /// Register `op` as the draw operation of kind `tag`.
    ///
    /// The first registration of a kind wins: registering a kind again is
    /// refused and leaves the registry as it was.
    pub fn register_widget(&mut self, tag: WidgetTag, op: Op) -> (r: Result<
        DrawSystemId,
        RegisterError,
    >)
        requires
            old(self).wf(),
        ensures
            final(self).wf(),
            old(self).tags().contains(tag) ==> r == Err::<DrawSystemId, RegisterError>(
                RegisterError::AlreadyRegistered(tag),
            ) && *final(self) == *old(self),
            !old(self).tags().contains(tag) ==> r == Ok::<DrawSystemId, RegisterError>(
                DrawSystemId(old(self).tags().len() as usize),
            ) && final(self).tags() == old(self).tags().push(tag) && final(self).ops()
                == old(self).ops().push(op),
    {
        if self.get_draw_system_id(tag).is_some() {
            return Err(RegisterError::AlreadyRegistered(tag));
        }
        let id = self.entries.len();
        proof {
            self.lemma_views();
        }
        self.entries.push((tag, op));
        proof {
            self.lemma_views();
            old(self).lemma_views();
            assert(self.tags() =~= old(self).tags().push(tag));
            assert(self.ops() =~= old(self).ops().push(op));
            assert forall|i: int, j: int|
                0 <= i < self.tags().len() && 0 <= j < self.tags().len() && i != j implies self.tags()[i]
                != self.tags()[j] by {
                if i == id as int {
                    assert(old(self).tags()[j] == self.tags()[j]);
                } else if j == id as int {
                    assert(old(self).tags()[i] == self.tags()[i]);
                }
            }
        }
        Ok(DrawSystemId(id))
    }

    /// The draw operation registered for `tag`, if any.
    pub fn get_draw_system_id(&self, tag: WidgetTag) -> (r: Option<DrawSystemId>)
        requires
            self.wf(),
        ensures
            r == self.lookup(tag),
    {
        proof {
            self.lemma_views();
        }
        let mut i: usize = 0;
        while i < self.entries.len()
            invariant
                self.wf(),
                self.tags().len() == self.entries@.len(),
                forall|k: int| 0 <= k < self.entries@.len() ==> #[trigger] self.tags()[k] == self.entries@[k].0,
                0 <= i <= self.entries@.len(),
                forall|k: int| 0 <= k < i ==> self.tags()[k] != tag,
            decreases self.entries@.len() - i,
        {
            if self.entries[i].0 == tag {
                proof {
                    let j = self.tags().index_of(tag);
                    assert(self.tags()[i as int] == tag);
                    assert(self.tags().contains(tag));
                    assert(self.tags()[j] == tag);
                }
                return Some(DrawSystemId(i));
            }
            i = i + 1;
        }
        None
    }

    /// The draw operation with handle `id`.
    pub fn draw_system(&self, id: DrawSystemId) -> (r: &Op)
        requires
            self.wf(),
            id.0 < self.ops().len(),
        ensures
            *r == self.ops()[id.0 as int],
    {
        proof {
            self.lemma_views();
        }
        &self.entries[id.0].1
    }
}

} // verus!
